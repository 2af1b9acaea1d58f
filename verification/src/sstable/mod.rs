//! Sorted tables: immutable files of key-value pairs.
//!
//! A table file holds four sections, one behind the other:
//!
//! - the data: per pair the key behind its four-byte length and the value behind
//!   its own;
//! - the Bloom filter of the keys;
//! - the index: for about every 4 KB of data one key behind its four-byte length,
//!   followed by the eight-byte position of its pair in the data;
//! - the footer: position and length of the filter, position and length of the
//!   index, eight bytes each.

use vstd::prelude::*;

use crate::bloom::filter_of;
use crate::encoding::{le_bytes, len_field};
use crate::pairs::{keys_of, Pair};

pub mod laws;
pub mod reader;
pub mod writer;

verus! {

/// A key of the index and the position of its pair in the data.
pub type Checkpoint = (Seq<u8>, nat);

/// How much data may lie behind one index entry before the next is due.
pub const INDEX_INTERVAL: usize = 4096;

/// The length of the footer.
pub const FOOTER_LEN: usize = 32;

/// A pair as it stands in the data.
pub open spec fn record(p: Pair) -> Seq<u8> {
    len_field(p.0.len()) + p.0 + len_field(p.1.len()) + p.1
}

/// The data section of a list of pairs.
pub open spec fn data_section(s: Seq<Pair>) -> Seq<u8>
    decreases s.len(),
{
    if s.len() == 0 {
        Seq::empty()
    } else {
        data_section(s.drop_last()) + record(s.last())
    }
}

/// The index of a list of pairs and the amount of data behind its last entry:
/// the first pair has an entry, and so has every pair that follows
/// `INDEX_INTERVAL` bytes of data or more without one.
pub open spec fn indexed(s: Seq<Pair>) -> (Seq<Checkpoint>, nat)
    decreases s.len(),
{
    if s.len() == 0 {
        (Seq::empty(), 0)
    } else {
        let (index, since) = indexed(s.drop_last());
        let size = record(s.last()).len();
        if index.len() == 0 || since >= INDEX_INTERVAL {
            (index.push((s.last().0, data_section(s.drop_last()).len())), size)
        } else {
            (index, since + size)
        }
    }
}

/// The index of a list of pairs.
pub open spec fn index_of(s: Seq<Pair>) -> Seq<Checkpoint> {
    indexed(s).0
}

/// The index section.
pub open spec fn index_section(index: Seq<Checkpoint>) -> Seq<u8>
    decreases index.len(),
{
    if index.len() == 0 {
        Seq::empty()
    } else {
        index_section(index.drop_last()) + checkpoint_bytes(index.last())
    }
}

/// An index entry as it stands in the index section.
pub open spec fn checkpoint_bytes(c: Checkpoint) -> Seq<u8> {
    len_field(c.0.len()) + c.0 + le_bytes(c.1, 8)
}

/// The footer.
pub open spec fn footer(filter_at: nat, filter_len: nat, index_at: nat, index_len: nat) -> Seq<u8> {
    le_bytes(filter_at, 8) + le_bytes(filter_len, 8) + le_bytes(index_at, 8) + le_bytes(
        index_len,
        8,
    )
}

/// The file that holds a data section, a filter and an index.
pub open spec fn assembled(data: Seq<u8>, filter: Seq<u8>, index: Seq<u8>) -> Seq<u8> {
    data + filter + index + footer(
        data.len(),
        filter.len(),
        data.len() + filter.len(),
        index.len(),
    )
}

/// The file of a list of pairs, with a filter of `m` bits and `k` hash functions.
pub open spec fn table_file(s: Seq<Pair>, m: nat, k: nat) -> Seq<u8> {
    assembled(
        data_section(s),
        filter_of(keys_of(s), m, k).encoded(),
        index_section(index_of(s)),
    )
}

} // verus!
