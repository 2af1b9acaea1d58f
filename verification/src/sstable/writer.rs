//! Building the file of a sorted table.

use vstd::prelude::*;

use crate::bloom::BloomFilter;
use crate::bloom::{filter_of, lemma_filter_of_push};
use crate::encoding::{copy_range, put_bytes, put_le, put_len};
use crate::pairs::{keys_of, Pair};
use crate::sstable::{
    assembled, checkpoint_bytes, data_section, index_of, index_section, indexed, record, table_file,
    Checkpoint,
};
use crate::sstable::INDEX_INTERVAL;

verus! {

/// Why a table could not be written or read.
#[derive(Debug)]
pub enum SsTableError {
    Io,
}

/// The index entries held by a vector.
pub open spec fn checkpoints_of(v: Seq<(Vec<u8>, u64)>) -> Seq<Checkpoint> {
    Seq::new(v.len(), |i: int| (v[i].0@, v[i].1 as nat))
}

/// A table file under construction.
pub struct SsTableWriter {
    data: Vec<u8>,
    index: Vec<(Vec<u8>, u64)>,
    bytes_since_last_index: usize,
    offset: u64,
    filter: BloomFilter,
    added: Ghost<Seq<Pair>>,
}

impl SsTableWriter {
    /// The pairs added so far, in the order of their addition.
    pub closed spec fn entries(&self) -> Seq<Pair> {
        self.added@
    }

    /// The number of bits of the filter.
    pub closed spec fn filter_bits(&self) -> nat {
        self.filter.m as nat
    }

    /// The number of hash functions of the filter.
    pub closed spec fn filter_hashes(&self) -> nat {
        self.filter.k as nat
    }

    /// What has been built is the file of the pairs added so far.
    pub closed spec fn wf(&self) -> bool {
        &&& self.data@ == data_section(self.added@)
        &&& self.offset == self.data@.len()
        &&& checkpoints_of(self.index@) == index_of(self.added@)
        &&& self.bytes_since_last_index == indexed(self.added@).1
        &&& self.bytes_since_last_index <= self.data@.len()
        &&& self.filter.wf()
        &&& self.filter@ == filter_of(
            keys_of(self.added@),
            self.filter.m as nat,
            self.filter.k as nat,
        )
    }

    /// An empty table whose filter has `m` bits and `k` hash functions.
    pub fn new(m: usize, k: usize) -> (writer: SsTableWriter)
        requires
            k > 0 ==> m > 0,
        ensures
            writer.wf(),
            writer.entries() == Seq::<Pair>::empty(),
            writer.filter_bits() == m,
            writer.filter_hashes() == k,
    {
        let filter = BloomFilter::new(m, k);
        let writer = SsTableWriter {
            data: Vec::new(),
            index: Vec::new(),
            bytes_since_last_index: 0,
            offset: 0,
            filter,
            added: Ghost(Seq::empty()),
        };
        assert(keys_of(Seq::<Pair>::empty()) =~= Seq::<Seq<u8>>::empty());
        assert(checkpoints_of(writer.index@) =~= Seq::<Checkpoint>::empty());
        writer
    }

    /// Adds a pair behind those added before.
    pub fn add(&mut self, key: &[u8], value: &[u8])
        requires
            old(self).wf(),
        ensures
            final(self).wf(),
            final(self).entries() == old(self).entries().push((key@, value@)),
            final(self).filter_bits() == old(self).filter_bits(),
            final(self).filter_hashes() == old(self).filter_hashes(),
    {
        let ghost before = self.added@;
        let ghost p: Pair = (key@, value@);
        let ghost index_before = self.index@;
        if self.index.is_empty() || self.bytes_since_last_index >= INDEX_INTERVAL {
            self.index.push((copy_range(key, 0, key.len()), self.offset));
            self.bytes_since_last_index = 0;
            proof {
                assert(key@.subrange(0, key@.len() as int) =~= key@);
                assert(checkpoints_of(self.index@) =~= checkpoints_of(index_before).push(
                    (key@, self.offset as nat),
                ));
            }
        }
        let ghost data_before = self.data@;
        put_len(&mut self.data, key.len());
        put_bytes(&mut self.data, key);
        put_len(&mut self.data, value.len());
        put_bytes(&mut self.data, value);
        let record_size: usize = self.data.len() - self.offset as usize;
        self.offset = self.data.len() as u64;
        self.bytes_since_last_index = self.bytes_since_last_index + record_size;
        self.filter.insert(key);
        self.added = Ghost(before.push(p));
        proof {
            assert(self.added@.drop_last() =~= before);
            assert(self.data@ =~= data_before + record(p));
            assert(keys_of(self.added@) =~= keys_of(before).push(key@));
            lemma_filter_of_push(
                keys_of(before),
                key@,
                self.filter.m as nat,
                self.filter.k as nat,
            );
        }
    }

    /// The complete file.
    pub fn finish(self) -> (file: Vec<u8>)
        requires
            self.wf(),
        ensures
            file@ == table_file(self.entries(), self.filter_bits(), self.filter_hashes()),
    {
        let filter_offset: u64 = self.offset;
        let filter_bytes = self.filter.to_bytes();
        let filter_len: u64 = filter_bytes.len() as u64;
        let ghost index = checkpoints_of(self.index@);
        let ghost data = self.data@;
        let mut file: Vec<u8> = self.data;
        put_bytes(&mut file, filter_bytes.as_slice());
        let index_offset: u64 = file.len() as u64;
        let ghost front = file@;
        let mut i: usize = 0;
        assert(index.take(0) =~= Seq::<Checkpoint>::empty());
        assert(file@ =~= front + index_section(index.take(0)));
        while i < self.index.len()
            invariant
                0 <= i <= self.index.len(),
                index == checkpoints_of(self.index@),
                file@ == front + index_section(index.take(i as int)),
            decreases self.index.len() - i,
        {
            let ghost so_far = file@;
            let ghost c = index[i as int];
            put_len(&mut file, self.index[i].0.len());
            put_bytes(&mut file, self.index[i].0.as_slice());
            put_le(&mut file, self.index[i].1, 8);
            proof {
                assert(index.take(i + 1).drop_last() =~= index.take(i as int));
                assert(file@ =~= so_far + checkpoint_bytes(c));
                assert(file@ =~= front + index_section(index.take(i + 1)));
            }
            i = i + 1;
        }
        assert(index.take(index.len() as int) =~= index);
        let index_len: u64 = file.len() as u64 - index_offset;
        put_le(&mut file, filter_offset, 8);
        put_le(&mut file, filter_len, 8);
        put_le(&mut file, index_offset, 8);
        put_le(&mut file, index_len, 8);
        assert(file@ =~= assembled(data, filter_bytes@, index_section(index)));
        file
    }
}

} // verus!
