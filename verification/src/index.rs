//! The index: the unified lookup table across all SSTs, built during
//! recovery and extended on each flush.
//!
//! Its merge policy is strictly last-write-wins: an incoming record
//! replaces the stored one only when its timestamp is strictly greater,
//! so replaying the same log twice is a no-op.

use vstd::prelude::*;

use crate::codec::record_views;
use crate::memtable::MemTable;
use crate::model::{
    kv_merge_one, kv_merge_seq, lemma_kv_merge_seq_push, lemma_merge_records, merge_map, KvMap,
};
use crate::record::Record;
use crate::skiplist::SortedKv;

verus! {

/// The unified lookup table across all flushed records.
pub struct Index {
    lookup: SortedKv,
}

impl View for Index {
    type V = KvMap;

    closed spec fn view(&self) -> KvMap {
        self.lookup@
    }
}

impl Index {
    /// The index always holds finitely many entries.
    pub open spec fn wf(&self) -> bool {
        self@.dom().finite()
    }

    pub fn new() -> (r: Index)
        ensures
            r@ == KvMap::empty(),
            r.wf(),
    {
        Index { lookup: SortedKv::new() }
    }

    /// Exact-match lookup of the stored record.
    pub fn get(&self, key: String) -> (r: Option<Record>)
        ensures
            match r {
                Some(rec) => self@.contains_key(key@) && rec.key@ == key@ && self@[key@] == (
                    rec.value@,
                    rec.timestamp,
                ),
                None => !self@.contains_key(key@),
            },
    {
        match self.lookup.lookup(&key) {
            Some(p) => Some(Record { key, value: p.0, timestamp: p.1 }),
            None => None,
        }
    }

    /// Merges one record: it replaces the stored one only when its
    /// timestamp is strictly greater.
    pub fn set(&mut self, entry: Record)
        ensures
            final(self)@ == kv_merge_one(old(self)@, entry@),
            old(self).wf() ==> final(self).wf(),
    {
        let existing = self.lookup.lookup(&entry.key);
        if let Some(stored) = existing {
            if entry.timestamp <= stored.1 {
                return ;
            }
        }
        self.lookup.insert(entry.key, entry.value, entry.timestamp);
    }

    /// The number of keys the index knows.
    pub fn len(&self) -> (n: usize)
        ensures
            n == self@.dom().len(),
    {
        self.lookup.length()
    }

    /// Merges a sequence of records in order.
    pub fn merge_records(&mut self, records: &Vec<Record>)
        ensures
            final(self)@ == kv_merge_seq(old(self)@, record_views(records@)),
            old(self).wf() ==> final(self).wf(),
    {
        let mut i: usize = 0;
        while i < records.len()
            invariant
                i <= records@.len(),
                self@ == kv_merge_seq(old(self)@, record_views(records@.take(i as int))),
                old(self).wf() ==> self@.dom().finite(),
            decreases records@.len() - i,
        {
            proof {
                lemma_kv_merge_seq_push(
                    old(self)@,
                    record_views(records@.take(i as int)),
                    records@[i as int]@,
                );
                assert(record_views(records@.take(i as int)).push(records@[i as int]@)
                    =~= record_views(records@.take(i + 1)));
            }
            let rec = records[i].duplicate();
            self.set(rec);
            i = i + 1;
        }
        proof {
            assert(records@.take(records@.len() as int) =~= records@);
        }
    }

    /// Merges every live entry of a memtable into the index: the flush
    /// step that makes the flushed records visible to readers.
    pub fn read_memtable(&mut self, memtable: &MemTable)
        ensures
            final(self)@ == merge_map(old(self)@, memtable@),
            old(self).wf() ==> final(self).wf(),
    {
        let records = memtable.entries();
        self.merge_records(&records);
        proof {
            lemma_merge_records(old(self)@, record_views(records@), memtable@);
        }
    }
}

} // verus!
