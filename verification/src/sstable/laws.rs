//! What is written into a table is what is read from it.

use vstd::arithmetic::power::pow;
use vstd::prelude::*;

use crate::bloom::{
    decoded_filter, filter_of, law_filter_admits_its_keys, law_filter_survives_encoding, Filter,
};
use crate::encoding::{
    fits_len, law_bytes_are_digits, le_bytes, le_value, len_at, len_field, lemma_capacity,
    lemma_le_bytes_len, lemma_le_bytes_of_value, lemma_le_value_bound, lemma_le_value_of_bytes,
    lemma_len_field_read,
};
use crate::order::{key_lt, lemma_key_lt_asymmetric, lemma_key_lt_transitive};
use crate::pairs::{keys_of, lemma_lookup_absent, lemma_lookup_found, lookup, strictly_sorted, Pair};
use crate::sstable::reader::{
    covering, index_sorted, lemma_covering, lemma_covering_unique, opened, pairs_from, parsed_index, record_at,
    scanned, Table,
};
use crate::sstable::writer::SsTableError;
use crate::sstable::{
    assembled, checkpoint_bytes, data_section, index_of, index_section, indexed, record, table_file,
    Checkpoint,
};
use crate::sstable::FOOTER_LEN;

verus! {

/// Every key and value fits its length field.
pub open spec fn all_fit(s: Seq<Pair>) -> bool {
    forall|i: int| 0 <= i < s.len() ==> fits_len((#[trigger] s[i]).0) && fits_len(s[i].1)
}

/// The position of the `i`-th pair in the data.
pub open spec fn offset_of(s: Seq<Pair>, i: int) -> nat {
    data_section(s.take(i)).len()
}

/// The list can be stored and read back exactly: it is sorted, its lengths fit
/// their fields, and the file is no longer than memory allows.
pub open spec fn storable(s: Seq<Pair>, m: nat, k: nat) -> bool {
    &&& strictly_sorted(s)
    &&& all_fit(s)
    &&& k > 0 ==> m > 0
    &&& m <= usize::MAX
    &&& k <= usize::MAX
    &&& table_file(s, m, k).len() <= usize::MAX
}

proof fn lemma_data_prefix(s: Seq<Pair>, n: int)
    requires
        0 <= n <= s.len(),
    ensures
        offset_of(s, n) <= data_section(s).len(),
        data_section(s).take(offset_of(s, n) as int) == data_section(s.take(n)),
    decreases s.len() - n,
{
    if n == s.len() {
        assert(s.take(n) =~= s);
        assert(data_section(s).take(data_section(s).len() as int) =~= data_section(s));
    } else {
        lemma_data_prefix(s, n + 1);
        assert(s.take(n + 1).drop_last() =~= s.take(n));
        let longer = data_section(s.take(n + 1));
        let len = offset_of(s, n) as int;
        assert(data_section(s).take(len) =~= longer.take(len));
        assert(longer.take(len) =~= data_section(s.take(n)));
    }
}

/// The record of the `i`-th pair stands at its offset.
proof fn lemma_record_in_data(s: Seq<Pair>, i: int)
    requires
        0 <= i < s.len(),
    ensures
        offset_of(s, i + 1) == offset_of(s, i) + record(s[i]).len(),
        offset_of(s, i + 1) <= data_section(s).len(),
        data_section(s).subrange(offset_of(s, i) as int, offset_of(s, i + 1) as int) == record(
            s[i],
        ),
{
    lemma_data_prefix(s, i + 1);
    assert(s.take(i + 1).drop_last() =~= s.take(i));
    let longer = data_section(s.take(i + 1));
    let a = offset_of(s, i) as int;
    let b = offset_of(s, i + 1) as int;
    assert(data_section(s).subrange(a, b) =~= longer.subrange(a, b));
    assert(longer.subrange(a, b) =~= record(s[i]));
}

/// A record is read back where it stands.
proof fn lemma_record_at(file: Seq<u8>, pos: int, p: Pair)
    requires
        0 <= pos,
        pos + record(p).len() <= file.len(),
        file.subrange(pos, pos + record(p).len()) == record(p),
        fits_len(p.0),
        fits_len(p.1),
    ensures
        record_at(file, pos) == Some((p, pos + record(p).len())),
{
    lemma_le_bytes_len(p.0.len(), 4);
    lemma_le_bytes_len(p.1.len(), 4);
    let r = record(p);
    let n = p.0.len() as int;
    let key_end = pos + 4 + n;
    let value_end = key_end + 4 + p.1.len();
    let window = file.subrange(pos, pos + r.len());
    assert(file.subrange(pos, pos + 4) =~= len_field(p.0.len())) by {
        assert(window.subrange(0, 4) =~= len_field(p.0.len()));
        assert(file.subrange(pos, pos + 4) =~= window.subrange(0, 4));
    }
    lemma_len_field_read(file, pos, p.0.len());
    assert(file.subrange(pos + 4, key_end) =~= p.0) by {
        assert(window.subrange(4, 4 + n) =~= p.0);
        assert(file.subrange(pos + 4, key_end) =~= window.subrange(4, 4 + n));
    }
    assert(file.subrange(key_end, key_end + 4) =~= len_field(p.1.len())) by {
        assert(window.subrange(4 + n, 8 + n) =~= len_field(p.1.len()));
        assert(file.subrange(key_end, key_end + 4) =~= window.subrange(
            4 + n,
            8 + n,
        ));
    }
    lemma_len_field_read(file, key_end, p.1.len());
    assert(file.subrange(key_end + 4, value_end) =~= p.1) by {
        assert(window.subrange(8 + n, r.len() as int) =~= p.1);
        assert(file.subrange(key_end + 4, value_end) =~= window.subrange(
            8 + n,
            r.len() as int,
        ));
    }
}

/// The `i`-th pair is read back from a file that starts with the data.
proof fn lemma_record_of_file(file: Seq<u8>, s: Seq<Pair>, i: int)
    requires
        data_section(s).len() <= file.len(),
        file.take(data_section(s).len() as int) == data_section(s),
        all_fit(s),
        0 <= i < s.len(),
    ensures
        record_at(file, offset_of(s, i) as int) == Some((s[i], offset_of(s, i + 1) as int)),
        offset_of(s, i) < offset_of(s, i + 1) <= data_section(s).len(),
{
    lemma_record_in_data(s, i);
    lemma_le_bytes_len(s[i].0.len(), 4);
    let a = offset_of(s, i) as int;
    let b = offset_of(s, i + 1) as int;
    assert(file.subrange(a, b) =~= data_section(s).subrange(a, b)) by {
        assert(file.take(data_section(s).len() as int).subrange(a, b) =~= file.subrange(a, b));
    }
    lemma_record_at(file, a, s[i]);
}

/// A scan from the `i`-th pair finds what the list from there on holds.
proof fn lemma_scan(file: Seq<u8>, s: Seq<Pair>, i: int, key: Seq<u8>)
    requires
        data_section(s).len() <= file.len(),
        file.take(data_section(s).len() as int) == data_section(s),
        all_fit(s),
        strictly_sorted(s),
        0 <= i <= s.len(),
    ensures
        scanned(file, data_section(s).len() as int, offset_of(s, i) as int, key) == Ok::<
            Option<Seq<u8>>,
            SsTableError,
        >(lookup(s.skip(i), key)),
    decreases s.len() - i,
{
    let end = data_section(s).len() as int;
    if i == s.len() {
        assert(s.take(i) =~= s);
        assert(lookup(s.skip(i), key) is None);
    } else {
        lemma_record_of_file(file, s, i);
        lemma_scan(file, s, i + 1, key);
        assert(s.skip(i)[0] == s[i]);
        assert(s.skip(i).skip(1) =~= s.skip(i + 1));
        if s[i].0 != key && key_lt(key, s[i].0) {
            let rest = s.skip(i);
            assert forall|j: int| 0 <= j < rest.len() implies (#[trigger] rest[j]).0 != key by {
                assert(rest[j] == s[i + j]);
                if j > 0 {
                    lemma_key_lt_transitive(key, s[i].0, s[i + j].0);
                    lemma_key_lt_asymmetric(key, s[i + j].0);
                }
            }
            lemma_lookup_absent(rest, key);
        }
    }
}

/// Reading on from the `i`-th pair gives the list from there on.
proof fn lemma_pairs_from(file: Seq<u8>, s: Seq<Pair>, i: int)
    requires
        data_section(s).len() <= file.len(),
        file.take(data_section(s).len() as int) == data_section(s),
        all_fit(s),
        0 <= i <= s.len(),
    ensures
        pairs_from(file, data_section(s).len() as int, offset_of(s, i) as int) == Some(s.skip(i)),
    decreases s.len() - i,
{
    if i == s.len() {
        assert(s.take(i) =~= s);
        assert(s.skip(i) =~= Seq::<Pair>::empty());
    } else {
        lemma_record_of_file(file, s, i);
        lemma_pairs_from(file, s, i + 1);
        assert(seq![s[i]] + s.skip(i + 1) =~= s.skip(i));
    }
}

/// Every index entry names a pair of the list and its offset.
proof fn lemma_index_entry(s: Seq<Pair>, j: int) -> (n: int)
    requires
        0 <= j < index_of(s).len(),
    ensures
        0 <= n < s.len(),
        index_of(s)[j] == (s[n].0, offset_of(s, n)),
    decreases s.len(),
{
    let front = s.drop_last();
    if j < index_of(front).len() {
        let n = lemma_index_entry(front, j);
        assert(front.take(n) =~= s.take(n));
        n
    } else {
        assert(s.take(s.len() - 1) =~= front);
        s.len() - 1
    }
}

/// The index of a sorted list is sorted, starts with the first pair, and is empty
/// only if the list is.
proof fn lemma_index_shape(s: Seq<Pair>)
    requires
        strictly_sorted(s),
    ensures
        index_sorted(index_of(s)),
        s.len() > 0 ==> index_of(s).len() > 0 && index_of(s)[0] == (s[0].0, 0nat),
    decreases s.len(),
{
    if s.len() > 0 {
        let front = s.drop_last();
        assert forall|i: int, j: int| 0 <= i < j < front.len() implies key_lt(
            #[trigger] front[i].0,
            #[trigger] front[j].0,
        ) by {
            assert(front[i] == s[i] && front[j] == s[j]);
        }
        lemma_index_shape(front);
        let index = index_of(s);
        let before = index_of(front);
        assert forall|i: int, j: int| 0 <= i < j < index.len() implies key_lt(
            #[trigger] index[i].0,
            #[trigger] index[j].0,
        ) by {
            if j == before.len() {
                let n = lemma_index_entry(front, i);
                assert(index[i] == before[i]);
                assert(key_lt(s[n].0, s[s.len() - 1].0));
            } else {
                assert(index[i] == before[i] && index[j] == before[j]);
            }
        }
        if front.len() > 0 {
            assert(index[0] == before[0]);
        }
    }
}

/// The entries of an index section are read back, followed by what comes behind.
proof fn lemma_parsed_index(index: Seq<Checkpoint>, tail: Seq<u8>)
    requires
        forall|i: int|
            0 <= i < index.len() ==> fits_len((#[trigger] index[i]).0) && index[i].1
                < 0x1_0000_0000_0000_0000,
    ensures
        parsed_index(index_section(index) + tail) == (match parsed_index(tail) {
            Some(rest) => Some(index + rest),
            None => None,
        }),
    decreases index.len(),
{
    if index.len() == 0 {
        assert(index_section(index) + tail =~= tail);
        if let Some(rest) = parsed_index(tail) {
            assert(index + rest =~= rest);
        }
    } else {
        let front = index.drop_last();
        let last = index.last();
        let behind = checkpoint_bytes(last) + tail;
        assert(index_section(index) + tail =~= index_section(front) + behind);
        assert forall|i: int| 0 <= i < front.len() implies fits_len((#[trigger] front[i]).0)
            && front[i].1 < 0x1_0000_0000_0000_0000 by {
            assert(front[i] == index[i]);
        }
        lemma_parsed_index(front, behind);
        lemma_parsed_checkpoint(last, tail);
        if let Some(rest) = parsed_index(tail) {
            assert(front + (seq![last] + rest) =~= index + rest);
        }
    }
}

proof fn lemma_parsed_checkpoint(c: Checkpoint, tail: Seq<u8>)
    requires
        fits_len(c.0),
        c.1 < 0x1_0000_0000_0000_0000,
    ensures
        parsed_index(checkpoint_bytes(c) + tail) == (match parsed_index(tail) {
            Some(rest) => Some(seq![c] + rest),
            None => None,
        }),
{
    let bytes = checkpoint_bytes(c) + tail;
    let key_end = 4 + c.0.len() as int;
    lemma_capacity();
    lemma_le_bytes_len(c.0.len(), 4);
    lemma_le_bytes_len(c.1, 8);
    lemma_le_value_of_bytes(c.1, 8);
    assert(bytes.subrange(0, 4) =~= len_field(c.0.len()));
    lemma_len_field_read(bytes, 0, c.0.len());
    assert(bytes.subrange(4, key_end) =~= c.0);
    assert(bytes.subrange(key_end, key_end + 8) =~= le_bytes(c.1, 8));
    assert(bytes.skip(key_end + 8) =~= tail);
}

/// Opening an assembled file finds the sections it was assembled from.
proof fn lemma_opened_assembled(data: Seq<u8>, filter: Filter, index: Seq<Checkpoint>)
    requires
        filter.wf(),
        filter.k <= usize::MAX,
        filter.m <= usize::MAX,
        parsed_index(index_section(index)) == Some(index),
        assembled(data, filter.encoded(), index_section(index)).len() <= usize::MAX,
    ensures
        opened(assembled(data, filter.encoded(), index_section(index))) == Some(
            Table {
                file: assembled(data, filter.encoded(), index_section(index)),
                data_end: data.len() as int,
                filter,
                index,
            },
        ),
        assembled(data, filter.encoded(), index_section(index)).take(data.len() as int) == data,
{
    let fbytes = filter.encoded();
    let ibytes = index_section(index);
    let file = assembled(data, fbytes, ibytes);
    let a = data.len();
    let b = fbytes.len();
    let c = data.len() + fbytes.len();
    let d = ibytes.len();
    lemma_capacity();
    lemma_le_bytes_len(a, 8);
    lemma_le_bytes_len(b, 8);
    lemma_le_bytes_len(c, 8);
    lemma_le_bytes_len(d, 8);
    lemma_le_value_of_bytes(a, 8);
    lemma_le_value_of_bytes(b, 8);
    lemma_le_value_of_bytes(c, 8);
    lemma_le_value_of_bytes(d, 8);
    let at = file.len() - FOOTER_LEN;
    assert(at == a + b + d);
    assert(file.subrange(at, at + 8) =~= le_bytes(a, 8));
    assert(file.subrange(at + 8, at + 16) =~= le_bytes(b, 8));
    assert(file.subrange(at + 16, at + 24) =~= le_bytes(c, 8));
    assert(file.subrange(at + 24, at + 32) =~= le_bytes(d, 8));
    assert(file.subrange(a as int, (a + b) as int) =~= fbytes);
    assert(file.subrange(c as int, (c + d) as int) =~= ibytes);
    law_filter_survives_encoding(filter);
    assert(file.take(a as int) =~= data);
}

/// A storable list's file opens as the table of that list.
pub proof fn law_table_opens(s: Seq<Pair>, m: nat, k: nat)
    requires
        storable(s, m, k),
    ensures
        opened(table_file(s, m, k)) == Some(
            Table {
                file: table_file(s, m, k),
                data_end: data_section(s).len() as int,
                filter: filter_of(keys_of(s), m, k),
                index: index_of(s),
            },
        ),
        index_sorted(index_of(s)),
        table_file(s, m, k).take(data_section(s).len() as int) == data_section(s),
{
    let index = index_of(s);
    let filter = filter_of(keys_of(s), m, k);
    assert(data_section(s).len() <= table_file(s, m, k).len());
    assert forall|j: int| 0 <= j < index.len() implies fits_len((#[trigger] index[j]).0)
        && index[j].1 < 0x1_0000_0000_0000_0000 by {
        let n = lemma_index_entry(s, j);
        lemma_data_prefix(s, n);
        assert(fits_len(s[n].0));
    }
    lemma_parsed_index(index, Seq::empty());
    assert(index_section(index) + Seq::<u8>::empty() =~= index_section(index));
    assert(index + Seq::<Checkpoint>::empty() =~= index);
    lemma_opened_assembled(data_section(s), filter, index);
    lemma_index_shape(s);
}

/// A table gives back the pairs it was written with: each key leads to its value
/// and no other key to any, and reading it through gives the list itself.
pub proof fn law_table_gives_back_its_pairs(s: Seq<Pair>, m: nat, k: nat, key: Seq<u8>)
    requires
        storable(s, m, k),
    ensures
        opened(table_file(s, m, k)) is Some,
        ({
            let table = opened(table_file(s, m, k))->0;
            &&& index_sorted(table.index)
            &&& table.stored(key) == Ok::<Option<Seq<u8>>, SsTableError>(lookup(s, key))
            &&& table.pairs() == Some(s)
        }),
{
    law_table_opens(s, m, k);
    let table = opened(table_file(s, m, k))->0;
    let file = table.file;
    lemma_pairs_from(file, s, 0);
    assert(s.take(0) =~= Seq::<Pair>::empty());
    assert(s.skip(0) =~= s);
    lemma_stored(s, m, k, key);
}

proof fn lemma_stored(s: Seq<Pair>, m: nat, k: nat, key: Seq<u8>)
    requires
        storable(s, m, k),
    ensures
        (Table {
            file: table_file(s, m, k),
            data_end: data_section(s).len() as int,
            filter: filter_of(keys_of(s), m, k),
            index: index_of(s),
        }).stored(key) == Ok::<Option<Seq<u8>>, SsTableError>(lookup(s, key)),
{
    law_table_opens(s, m, k);
    let file = table_file(s, m, k);
    let filter = filter_of(keys_of(s), m, k);
    let index = index_of(s);
    let n = covering(index, key) as int;
    if !filter.admits(key) {
        if lookup(s, key) is Some {
            let i = lemma_lookup_found(s, key);
            assert(keys_of(s)[i] == key);
            law_filter_admits_its_keys(keys_of(s), m, k, i);
        }
    } else if n == 0 {
        lemma_before_index(s, key);
    } else {
        let q = lemma_covered_start(s, key);
        lemma_scan(file, s, q, key);
        lemma_lookup_skip(s, q, key);
    }
}

/// A key that comes before the whole index is not in the list.
proof fn lemma_before_index(s: Seq<Pair>, key: Seq<u8>)
    requires
        strictly_sorted(s),
        covering(index_of(s), key) == 0,
    ensures
        lookup(s, key) is None,
{
    lemma_index_shape(s);
    assert forall|i: int| 0 <= i < s.len() implies (#[trigger] s[i]).0 != key by {
        assert(key_lt(key, s[0].0));
        if i > 0 {
            lemma_key_lt_transitive(key, s[0].0, s[i].0);
        }
        lemma_key_lt_asymmetric(key, s[i].0);
    }
    lemma_lookup_absent(s, key);
}

/// The last index entry up to the key names a pair that does not come behind it.
proof fn lemma_covered_start(s: Seq<Pair>, key: Seq<u8>) -> (q: int)
    requires
        strictly_sorted(s),
        covering(index_of(s), key) > 0,
    ensures
        0 <= q < s.len(),
        index_of(s)[covering(index_of(s), key) - 1] == (s[q].0, offset_of(s, q)),
        !key_lt(key, s[q].0),
{
    let index = index_of(s);
    let n = covering(index, key) as int;
    lemma_covering(index, key);
    lemma_index_entry(s, n - 1)
}

/// Keys before a pair that does not come behind the wanted key cannot match it.
proof fn lemma_lookup_skip(s: Seq<Pair>, q: int, key: Seq<u8>)
    requires
        strictly_sorted(s),
        0 <= q < s.len(),
        !key_lt(key, s[q].0),
    ensures
        lookup(s.skip(q), key) == lookup(s, key),
    decreases q,
{
    if q == 0 {
        assert(s.skip(0) =~= s);
    } else {
        assert(key_lt(s[q - 1].0, s[q].0));
        if key_lt(key, s[q - 1].0) {
            lemma_key_lt_transitive(key, s[q - 1].0, s[q].0);
        }
        lemma_lookup_skip(s, q - 1, key);
        let longer = s.skip(q - 1);
        assert(longer.skip(1) =~= s.skip(q));
        assert(longer[0] == s[q - 1]);
        if s[q - 1].0 == key {
            assert(false);
        }
    }
}

/// The distance of the last index entry to the end of the data.
proof fn lemma_since(s: Seq<Pair>)
    ensures
        index_of(s).len() > 0 ==> data_section(s).len() == index_of(s).last().1 + indexed(s).1,
        s.len() > 0 ==> index_of(s).len() > 0,
    decreases s.len(),
{
    if s.len() > 0 {
        lemma_since(s.drop_last());
    }
}

/// Neighbouring index entries lie at least 4096 bytes of data apart.
pub proof fn law_index_is_sparse(s: Seq<Pair>, j: int)
    requires
        0 <= j,
        j + 1 < index_of(s).len(),
    ensures
        index_of(s)[j + 1].1 >= index_of(s)[j].1 + 4096,
    decreases s.len(),
{
    let front = s.drop_last();
    lemma_since(front);
    if j + 1 < index_of(front).len() {
        law_index_is_sparse(front, j);
        assert(index_of(s)[j] == index_of(front)[j]);
        assert(index_of(s)[j + 1] == index_of(front)[j + 1]);
    }
}

/// Every pair has an index entry less than 4096 bytes before it, or at it.
pub proof fn law_index_is_dense(s: Seq<Pair>, i: int) -> (j: int)
    requires
        0 <= i < s.len(),
    ensures
        0 <= j < index_of(s).len(),
        index_of(s)[j].1 <= offset_of(s, i) < index_of(s)[j].1 + 4096,
    decreases s.len(),
{
    let front = s.drop_last();
    if i < front.len() {
        let j = law_index_is_dense(front, i);
        assert(front.take(i) =~= s.take(i));
        assert(index_of(s)[j] == index_of(front)[j]);
        j
    } else {
        assert(s.take(i) =~= front);
        lemma_since(front);
        index_of(s).len() - 1
    }
}

/// A record is the key behind its four-byte length and the value behind its own, and the
/// data is one record after the other.
pub proof fn law_data_layout(s: Seq<Pair>, p: Pair)
    ensures
        ({
            let r = record(p);
            let k = p.0.len() as int;
            &&& r.len() == 8 + k + p.1.len()
            &&& le_value(r.subrange(0, 4)) == p.0.len() % 0x1_0000_0000
            &&& r.subrange(4, 4 + k) == p.0
            &&& le_value(r.subrange(4 + k, 8 + k)) == p.1.len() % 0x1_0000_0000
            &&& r.subrange(8 + k, r.len() as int) == p.1
        }),
        data_section(Seq::empty()).len() == 0,
        data_section(s.push(p)) == data_section(s) + record(p),
{
    let r = record(p);
    let k = p.0.len() as int;
    lemma_field_value(p.0.len(), 4);
    lemma_field_value(p.1.len(), 4);
    assert(r.subrange(0, 4) =~= len_field(p.0.len()));
    assert(r.subrange(4, 4 + k) =~= p.0);
    assert(r.subrange(4 + k, 8 + k) =~= len_field(p.1.len()));
    assert(r.subrange(8 + k, r.len() as int) =~= p.1);
    assert(s.push(p).drop_last() =~= s);
}

proof fn lemma_field_value(n: nat, width: nat)
    requires
        width == 4 || width == 8,
    ensures
        le_bytes(n, width).len() == width,
        width == 4 ==> le_value(le_bytes(n, width)) == n % 0x1_0000_0000,
        width == 8 ==> le_value(le_bytes(n, width)) == n % 0x1_0000_0000_0000_0000,
{
    law_bytes_are_digits(n, width);
    reveal_with_fuel(pow, 9);
}

/// A pair gets an index entry, its key and its position, if it is the first or if 4096
/// bytes of data or more lie between it and the last pair that got one.
pub proof fn law_index_grows_with_the_data(s: Seq<Pair>, p: Pair)
    ensures
        index_of(Seq::empty()).len() == 0,
        s.len() == 0 ==> index_of(s.push(p)) == seq![(p.0, 0nat)],
        s.len() > 0 ==> index_of(s).len() > 0,
        s.len() > 0 && data_section(s).len() - index_of(s).last().1 >= 4096 ==> index_of(s.push(p))
            == index_of(s).push((p.0, data_section(s).len())),
        s.len() > 0 && data_section(s).len() - index_of(s).last().1 < 4096 ==> index_of(s.push(p))
            == index_of(s),
{
    assert(s.push(p).drop_last() =~= s);
    lemma_since(s);
    if s.len() == 0 {
        assert(index_of(s.push(p)) =~= seq![(p.0, 0nat)]);
    }
}

/// An index entry is the key behind its four-byte length and the position in eight
/// bytes, and the index section is one entry after the other.
pub proof fn law_index_layout(index: Seq<Checkpoint>, c: Checkpoint)
    ensures
        ({
            let e = checkpoint_bytes(c);
            let k = c.0.len() as int;
            &&& e.len() == 12 + k
            &&& le_value(e.subrange(0, 4)) == c.0.len() % 0x1_0000_0000
            &&& e.subrange(4, 4 + k) == c.0
            &&& le_value(e.subrange(4 + k, 12 + k)) == c.1 % 0x1_0000_0000_0000_0000
        }),
        index_section(Seq::empty()).len() == 0,
        index_section(index.push(c)) == index_section(index) + checkpoint_bytes(c),
{
    let e = checkpoint_bytes(c);
    let k = c.0.len() as int;
    lemma_field_value(c.0.len(), 4);
    lemma_field_value(c.1, 8);
    assert(e.subrange(0, 4) =~= len_field(c.0.len()));
    assert(e.subrange(4, 4 + k) =~= c.0);
    assert(e.subrange(4 + k, 12 + k) =~= le_bytes(c.1, 8));
    assert(index.push(c).drop_last() =~= index);
}

/// A table file is the data, the filter of all keys, the index, and 32 bytes that give
/// the position and the length of the filter and of the index.
pub proof fn law_table_layout(s: Seq<Pair>, m: nat, k: nat)
    ensures
        ({
            let file = table_file(s, m, k);
            let a = data_section(s).len() as int;
            let b = a + filter_of(keys_of(s), m, k).encoded().len();
            let c = b + index_section(index_of(s)).len();
            let r: int = 0x1_0000_0000_0000_0000;
            &&& file.len() == c + 32
            &&& file.take(a) == data_section(s)
            &&& file.subrange(a, b) == filter_of(keys_of(s), m, k).encoded()
            &&& file.subrange(b, c) == index_section(index_of(s))
            &&& le_value(file.subrange(c, c + 8)) == a % r
            &&& le_value(file.subrange(c + 8, c + 16)) == (b - a) % r
            &&& le_value(file.subrange(c + 16, c + 24)) == b % r
            &&& le_value(file.subrange(c + 24, c + 32)) == (c - b) % r
        }),
{
    let file = table_file(s, m, k);
    let data = data_section(s);
    let fbytes = filter_of(keys_of(s), m, k).encoded();
    let ibytes = index_section(index_of(s));
    let a = data.len();
    let b = fbytes.len();
    let c = ibytes.len();
    lemma_field_value(a, 8);
    lemma_field_value(b, 8);
    lemma_field_value(a + b, 8);
    lemma_field_value(c, 8);
    let end = (a + b + c) as int;
    assert(file.take(a as int) =~= data);
    assert(file.subrange(a as int, (a + b) as int) =~= fbytes);
    assert(file.subrange((a + b) as int, end) =~= ibytes);
    assert(file.subrange(end, end + 8) =~= le_bytes(a, 8));
    assert(file.subrange(end + 8, end + 16) =~= le_bytes(b, 8));
    assert(file.subrange(end + 16, end + 24) =~= le_bytes(a + b, 8));
    assert(file.subrange(end + 24, end + 32) =~= le_bytes(c, 8));
}

/// The lengths and positions of the index fit their fields.
pub open spec fn index_fits(index: Seq<Checkpoint>) -> bool {
    forall|i: int|
        0 <= i < index.len() ==> fits_len((#[trigger] index[i]).0) && index[i].1
            < 0x1_0000_0000_0000_0000
}

/// An index section is read as an index exactly if it is the section of that index.
pub proof fn law_index_is_read_as_written(bytes: Seq<u8>, index: Seq<Checkpoint>)
    ensures
        parsed_index(bytes) == Some(index) <==> index_fits(index) && index_section(index) == bytes,
    decreases bytes.len(),
{
    if index_fits(index) && index_section(index) == bytes {
        lemma_parsed_index(index, Seq::empty());
        assert(bytes + Seq::<u8>::empty() =~= bytes);
        assert(index + Seq::<Checkpoint>::empty() =~= index);
    }
    if parsed_index(bytes) == Some(index) {
        if bytes.len() == 0 {
            assert(index_section(index) =~= bytes);
        } else {
            let key_end = 4 + len_at(bytes, 0);
            lemma_capacity();
            lemma_le_value_bound(bytes.subrange(0, 4));
            lemma_le_value_bound(bytes.subrange(key_end, key_end + 8));
            lemma_le_bytes_of_value(bytes.subrange(0, 4));
            lemma_le_bytes_of_value(bytes.subrange(key_end, key_end + 8));
            let tail = bytes.skip(key_end + 8);
            let rest = parsed_index(tail)->0;
            let c = index[0];
            law_index_is_read_as_written(tail, rest);
            assert(index =~= seq![c] + rest);
            lemma_index_section_front(c, rest);
            assert(checkpoint_bytes(c) + tail =~= bytes);
            assert forall|i: int| 0 <= i < index.len() implies fits_len((#[trigger] index[i]).0)
                && index[i].1 < 0x1_0000_0000_0000_0000 by {
                if i > 0 {
                    assert(index[i] == rest[i - 1]);
                }
            }
        }
    }
}

proof fn lemma_index_section_front(c: Checkpoint, rest: Seq<Checkpoint>)
    ensures
        index_section(seq![c] + rest) == checkpoint_bytes(c) + index_section(rest),
    decreases rest.len(),
{
    let all = seq![c] + rest;
    if rest.len() == 0 {
        assert(all.drop_last() =~= rest);
        assert(index_section(all) =~= checkpoint_bytes(c) + index_section(rest));
    } else {
        assert(all.drop_last() =~= seq![c] + rest.drop_last());
        lemma_index_section_front(c, rest.drop_last());
        assert(index_section(all) =~= checkpoint_bytes(c) + index_section(rest));
    }
}

/// A pair is read at a position exactly if its record stands there, whole.
pub proof fn law_record_is_read_as_written(file: Seq<u8>, pos: int, p: Pair, next: int)
    requires
        0 <= pos,
    ensures
        record_at(file, pos) == Some((p, next)) <==> {
            &&& fits_len(p.0) && fits_len(p.1)
            &&& next == pos + record(p).len()
            &&& next <= file.len()
            &&& file.subrange(pos, next) == record(p)
        },
{
    if record_at(file, pos) == Some((p, next)) {
        let key_end = pos + 4 + len_at(file, pos);
        lemma_capacity();
        lemma_le_value_bound(file.subrange(pos, pos + 4));
        lemma_le_value_bound(file.subrange(key_end, key_end + 4));
        lemma_le_bytes_of_value(file.subrange(pos, pos + 4));
        lemma_le_bytes_of_value(file.subrange(key_end, key_end + 4));
        assert(file.subrange(pos, next) =~= record(p));
    } else if fits_len(p.0) && fits_len(p.1) && next == pos + record(p).len() && next <= file.len()
        && file.subrange(pos, next) == record(p) {
        lemma_record_at(file, pos, p);
    }
}

/// A scan ends at the end of the data, at the key, or at the first greater one; it goes
/// on behind a smaller key, and fails where no whole record stands.
pub proof fn law_scan_steps(file: Seq<u8>, end: int, pos: int, key: Seq<u8>, p: Pair)
    requires
        0 <= pos,
    ensures
        pos >= end ==> scanned(file, end, pos, key) == Ok::<Option<Seq<u8>>, SsTableError>(None),
        pos < end && (forall|q: Pair, next: int| record_at(file, pos) != Some((q, next)))
            ==> scanned(file, end, pos, key) is Err,
        pos < end && record_at(file, pos) == Some((p, pos + record(p).len())) ==> {
            &&& p.0 == key ==> scanned(file, end, pos, key) == Ok::<Option<Seq<u8>>, SsTableError>(
                Some(p.1),
            )
            &&& key_lt(key, p.0) ==> scanned(file, end, pos, key) == Ok::<
                Option<Seq<u8>>,
                SsTableError,
            >(None)
            &&& key_lt(p.0, key) ==> scanned(file, end, pos, key) == scanned(
                file,
                end,
                pos + record(p).len(),
                key,
            )
        },
{
    if key_lt(key, p.0) {
        lemma_key_lt_asymmetric(key, p.0);
    }
    if key_lt(p.0, key) {
        lemma_key_lt_asymmetric(p.0, key);
    }
    if record_at(file, pos) is Some {
        let found = record_at(file, pos)->0;
        assert(record_at(file, pos) == Some((found.0, found.1)));
    }
}

/// A table stores nothing of a key that its filter denies or that comes before its whole
/// index. Of any other key it stores what a scan finds from the last index entry whose
/// key does not come behind it.
pub proof fn law_stored_is_found_from_the_index(table: Table, key: Seq<u8>, n: int)
    requires
        index_sorted(table.index),
        -1 <= n < table.index.len(),
        n >= 0 ==> !key_lt(key, table.index[n].0),
        n + 1 < table.index.len() ==> key_lt(key, table.index[n + 1].0),
    ensures
        !table.filter.admits(key) ==> table.stored(key) == Ok::<Option<Seq<u8>>, SsTableError>(
            None,
        ),
        n < 0 ==> table.stored(key) == Ok::<Option<Seq<u8>>, SsTableError>(None),
        n >= 0 && table.filter.admits(key) ==> table.stored(key) == scanned(
            table.file,
            table.data_end,
            table.index[n].1 as int,
            key,
        ),
{
    let index = table.index;
    assert forall|i: int| 0 <= i < n + 1 implies !key_lt(key, (#[trigger] index[i]).0) by {
        if i < n && key_lt(key, index[i].0) {
            lemma_key_lt_transitive(key, index[i].0, index[n].0);
        }
    }
    lemma_covering_unique(index, key, n + 1);
}

/// The pairs of a table that is read through are those whose records stand one after the
/// other from the start of the file, and they reach the end of the data.
pub proof fn law_reading_through_gives_the_records(file: Seq<u8>, end: int, pos: int, s: Seq<Pair>)
    requires
        0 <= pos,
        pairs_from(file, end, pos) == Some(s),
    ensures
        all_fit(s),
        pos + data_section(s).len() >= end,
        pos < end ==> s.len() > 0 && pos + data_section(s.drop_last()).len() < end,
        pos >= end ==> s.len() == 0,
        s.len() > 0 ==> pos + data_section(s).len() <= file.len(),
        s.len() > 0 ==> file.subrange(pos, pos + data_section(s).len()) == data_section(s),
    decreases
        (if pos < end {
            end - pos
        } else {
            0
        }),
{
    if pos < end {
        let (p, next) = record_at(file, pos)->0;
        let rest = pairs_from(file, end, next)->0;
        law_record_is_read_as_written(file, pos, p, next);
        law_data_layout(s, p);
        law_reading_through_gives_the_records(file, end, next, rest);
        assert(s =~= seq![p] + rest);
        lemma_data_front(p, rest);
        assert forall|i: int| 0 <= i < s.len() implies fits_len((#[trigger] s[i]).0) && fits_len(
            s[i].1,
        ) by {
            if i > 0 {
                assert(s[i] == rest[i - 1]);
            }
        }
        if rest.len() == 0 {
            assert(s.drop_last() =~= rest);
            assert(data_section(rest) =~= Seq::<u8>::empty());
            assert(data_section(s) =~= record(p));
        } else {
            assert(s.drop_last() =~= seq![p] + rest.drop_last());
            lemma_data_front(p, rest.drop_last());
            let last = next + data_section(rest).len();
            assert(file.subrange(pos, last) =~= record(p) + file.subrange(next, last)) by {
                assert(file.subrange(pos, next) == record(p));
                assert(file.subrange(pos, last) =~= file.subrange(pos, next) + file.subrange(
                    next,
                    last,
                ));
            }
        }
    } else {
        assert(data_section(s).len() == 0);
    }
}

proof fn lemma_data_front(p: Pair, rest: Seq<Pair>)
    ensures
        data_section(seq![p] + rest) == record(p) + data_section(rest),
    decreases rest.len(),
{
    let all = seq![p] + rest;
    if rest.len() == 0 {
        assert(all.drop_last() =~= rest);
        assert(data_section(all) =~= record(p) + data_section(rest));
    } else {
        assert(all.drop_last() =~= seq![p] + rest.drop_last());
        lemma_data_front(p, rest.drop_last());
        assert(data_section(all) =~= record(p) + data_section(rest));
    }
}

/// Whole records, one after the other, of which all start before the end of the data and
/// the last reaches it, are read through.
pub proof fn law_whole_records_are_read_through(file: Seq<u8>, end: int, pos: int, s: Seq<Pair>)
    requires
        0 <= pos,
        all_fit(s),
        pos + data_section(s).len() >= end,
        s.len() > 0 ==> pos + data_section(s.drop_last()).len() < end,
        pos + data_section(s).len() <= file.len(),
        file.subrange(pos, pos + data_section(s).len()) == data_section(s),
    ensures
        pairs_from(file, end, pos) == Some(s),
    decreases s.len(),
{
    if s.len() == 0 {
        assert(data_section(s).len() == 0);
        assert(s =~= Seq::<Pair>::empty());
    } else {
        let p = s[0];
        let rest = s.skip(1);
        let next = pos + record(p).len();
        let last = pos + data_section(s).len();
        assert(s =~= seq![p] + rest);
        lemma_data_front(p, rest);
        assert(file.subrange(pos, next) =~= record(p)) by {
            assert(file.subrange(pos, last).take(record(p).len() as int) =~= file.subrange(
                pos,
                next,
            ));
            assert((record(p) + data_section(rest)).take(record(p).len() as int) =~= record(p));
        }
        assert(file.subrange(next, last) =~= data_section(rest)) by {
            assert(file.subrange(pos, last).skip(record(p).len() as int) =~= file.subrange(
                next,
                last,
            ));
            assert((record(p) + data_section(rest)).skip(record(p).len() as int) =~= data_section(
                rest,
            ));
        }
        assert(fits_len(s[0].0) && fits_len(s[0].1));
        law_record_is_read_as_written(file, pos, p, next);
        assert forall|i: int| 0 <= i < rest.len() implies fits_len((#[trigger] rest[i]).0)
            && fits_len(rest[i].1) by {
            assert(rest[i] == s[i + 1]);
        }
        if rest.len() > 0 {
            assert(s.drop_last() =~= seq![p] + rest.drop_last());
            lemma_data_front(p, rest.drop_last());
        } else {
            assert(s.drop_last() =~= rest);
            assert(data_section(rest).len() == 0);
        }
        law_whole_records_are_read_through(file, end, next, rest);
        assert(seq![p] + rest =~= s);
    }
}

/// A file opens as a table exactly if its last 32 bytes lead to a filter and to an index
/// inside it; an empty index may lie anywhere. The data ends where the filter begins.
pub proof fn law_open_follows_the_footer(file: Seq<u8>, table: Table)
    ensures
        opened(file) == Some(table) <==> {
            let at = file.len() - 32;
            let filter_at = le_value(file.subrange(at, at + 8)) as int;
            let filter_len = le_value(file.subrange(at + 8, at + 16)) as int;
            let index_at = le_value(file.subrange(at + 16, at + 24)) as int;
            let index_len = le_value(file.subrange(at + 24, at + 32)) as int;
            &&& file.len() >= 32
            &&& table.file == file
            &&& table.data_end == filter_at
            &&& filter_at + filter_len <= file.len()
            &&& decoded_filter(file.subrange(filter_at, filter_at + filter_len)) == Some(
                table.filter,
            )
            &&& if index_len == 0 {
                table.index.len() == 0
            } else {
                &&& index_at + index_len <= file.len()
                &&& parsed_index(file.subrange(index_at, index_at + index_len)) == Some(
                    table.index,
                )
            }
        },
{
    let at = file.len() - 32;
    let filter_at = le_value(file.subrange(at, at + 8)) as int;
    let index_len = le_value(file.subrange(at + 24, at + 32)) as int;
    assert(decoded_filter(Seq::<u8>::empty()) is None);
    assert(parsed_index(Seq::<u8>::empty()) == Some(Seq::<Checkpoint>::empty()));
    if index_len == 0 && table.index.len() == 0 {
        assert(table.index =~= Seq::<Checkpoint>::empty());
    }
    assert(filter_at >= 0);
    if 0 <= filter_at <= file.len() {
        assert(file.subrange(filter_at, filter_at) =~= Seq::<u8>::empty());
    }
}

/// A list can be stored if its keys increase, its lengths are below 2^32, and numbers and
/// file fit a machine word; there is no other limit.
pub proof fn law_only_machine_limits_bound_a_table(s: Seq<Pair>, m: nat, k: nat)
    ensures
        storable(s, m, k) <==> {
            &&& strictly_sorted(s)
            &&& forall|i: int|
                0 <= i < s.len() ==> (#[trigger] s[i]).0.len() < 0x1_0000_0000 && s[i].1.len()
                    < 0x1_0000_0000
            &&& k > 0 ==> m > 0
            &&& m <= usize::MAX && k <= usize::MAX
            &&& table_file(s, m, k).len() <= usize::MAX
        },
{
    if all_fit(s) {
        assert forall|i: int| 0 <= i < s.len() implies (#[trigger] s[i]).0.len() < 0x1_0000_0000
            && s[i].1.len() < 0x1_0000_0000 by {
            assert(fits_len(s[i].0) && fits_len(s[i].1));
        }
    }
}

} // verus!
