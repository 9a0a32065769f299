//! The memtable: the ordered in-memory table of live, unflushed records.
//!
//! It holds at most one record per key — always the one with the highest
//! timestamp seen since the last flush.  An incoming record with a
//! timestamp greater than or equal to the stored one replaces it (ties
//! favour the newer write); a strictly older record is rejected.

use vstd::prelude::*;

use crate::model::{kv_upsert, records_match_map, sorted_by_key, KvMap};
use crate::codec::record_views;
use crate::record::{Record, RecordView};
use crate::skiplist::SortedKv;

verus! {

/// What the memtable stores for a key.
#[derive(Debug, Clone, PartialEq, Eq)]
pub struct MemTableValue {
    pub value: String,
    pub timestamp: u128,
}

impl View for MemTableValue {
    type V = (Seq<char>, u128);

    open spec fn view(&self) -> (Seq<char>, u128) {
        (self.value@, self.timestamp)
    }
}

/// A record handed to the memtable for insertion.
#[derive(Debug)]
pub struct MemTableEntry {
    pub key: String,
    pub value: String,
    pub timestamp: u128,
}

impl View for MemTableEntry {
    type V = RecordView;

    open spec fn view(&self) -> RecordView {
        RecordView { key: self.key@, value: self.value@, timestamp: self.timestamp }
    }
}

/// What an upsert did: a fresh insert, a replacement, or nothing because
/// the incoming record was strictly older than the stored one.
#[derive(Debug, PartialEq, Eq)]
pub enum MemTableOperation {
    INSERTED,
    UPDATED,
    NONE,
}

/// The ordered in-memory map of live records.
pub struct MemTable {
    entries: SortedKv,
}

impl View for MemTable {
    type V = KvMap;

    closed spec fn view(&self) -> KvMap {
        self.entries@
    }
}

impl MemTable {
    /// The memtable always holds finitely many entries.
    pub open spec fn wf(&self) -> bool {
        self@.dom().finite()
    }

    pub fn new() -> (r: MemTable)
        ensures
            r@ == KvMap::empty(),
            r.wf(),
    {
        MemTable { entries: SortedKv::new() }
    }

    /// The number of entries held: the size signal that triggers a flush.
    pub fn len(&self) -> (n: usize)
        ensures
            n == self@.dom().len(),
    {
        self.entries.length()
    }

    /// Upserts one record under the last-write-wins policy: replace when
    /// the incoming timestamp is greater than or equal to the stored one,
    /// reject when it is strictly less.
    pub fn set(&mut self, entry: MemTableEntry) -> (op: MemTableOperation)
        ensures
            final(self)@ == kv_upsert(old(self)@, entry@),
            old(self).wf() ==> final(self).wf(),
            op is INSERTED <==> !old(self)@.contains_key(entry.key@),
            op is UPDATED <==> old(self)@.contains_key(entry.key@) && entry.timestamp >= old(
                self,
            )@[entry.key@].1,
            op is NONE <==> old(self)@.contains_key(entry.key@) && entry.timestamp < old(
                self,
            )@[entry.key@].1,
    {
        let existing = self.entries.lookup(&entry.key);
        match existing {
            Some(stored) => {
                if entry.timestamp < stored.1 {
                    MemTableOperation::NONE
                } else {
                    self.entries.insert(entry.key, entry.value, entry.timestamp);
                    MemTableOperation::UPDATED
                }
            },
            None => {
                self.entries.insert(entry.key, entry.value, entry.timestamp);
                MemTableOperation::INSERTED
            },
        }
    }

    /// Exact-match lookup.
    pub fn get(&self, key: String) -> (r: Option<MemTableValue>)
        ensures
            match r {
                Some(v) => self@.contains_key(key@) && self@[key@] == v@,
                None => !self@.contains_key(key@),
            },
    {
        match self.entries.lookup(&key) {
            Some(p) => Some(MemTableValue { value: p.0, timestamp: p.1 }),
            None => None,
        }
    }

    /// Removes every entry.
    pub fn clear(&mut self)
        ensures
            final(self)@ == KvMap::empty(),
            final(self).wf(),
    {
        self.entries.clear();
    }

    /// Every entry as a record, in strictly ascending key order — the
    /// order an SST is written in.
    pub fn entries(&self) -> (r: Vec<Record>)
        ensures
            r@.len() == self@.dom().len(),
            sorted_by_key(record_views(r@)),
            records_match_map(record_views(r@), self@),
    {
        let tuples = self.entries.to_vec();
        let mut out: Vec<Record> = Vec::new();
        let mut i: usize = 0;
        while i < tuples.len()
            invariant
                i == out@.len(),
                i <= tuples@.len(),
                forall|j: int|
                    0 <= j < i ==> #[trigger] out@[j]@ == (RecordView {
                        key: tuples@[j].0@,
                        value: tuples@[j].1@,
                        timestamp: tuples@[j].2,
                    }),
            decreases tuples.len() - i,
        {
            let t = &tuples[i];
            out.push(Record { key: t.0.clone(), value: t.1.clone(), timestamp: t.2 });
            i = i + 1;
        }
        proof {
            let rv = record_views(out@);
            assert forall|j: int| 0 <= j < rv.len() implies #[trigger] rv[j] == (RecordView {
                key: tuples@[j].0@,
                value: tuples@[j].1@,
                timestamp: tuples@[j].2,
            }) by {
                assert(out@[j]@ == rv[j]);
            }
            assert forall|k: Seq<char>| #[trigger]
                self@.contains_key(k) implies exists|j: int|
                0 <= j < rv.len() && #[trigger] rv[j].key == k by {
                let j = choose|j: int| 0 <= j < tuples@.len() && #[trigger] tuples@[j].0@ == k;
                assert(rv[j].key == k);
            }
        }
        out
    }
}

} // verus!
