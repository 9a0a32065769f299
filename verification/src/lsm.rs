//! The LSM engine: orchestrates writes, flushes, reads and recovery.
//!
//! Every successful `set` appends the record to the WAL before it touches
//! the memtable, and a flush writes the retired memtable as a new SST
//! before the WAL is truncated, so the engine's well-formedness invariant
//! couples the volatile state to the durable bytes: recovering the store
//! always rebuilds exactly the live state.

use vstd::prelude::*;

use crate::codec;
use crate::codec::{record_views, spec_parse_records, spec_parse_tolerant};
use crate::error::{DatastoreError, Result};
use crate::index::Index;
use crate::memtable::{MemTable, MemTableEntry};
use crate::model::{
    combined, kv_upsert, kv_upsert_seq, lemma_kv_upsert_seq_push, lemma_merge_records,
    merge_map, model_set, model_visible, records_match_map, recovered_index, sorted_by_key,
    sst_seq_parses, EngineModel, KvMap,
};
use crate::record::{Record, RecordView};
use crate::store::{recovered_model, store_visible, Store, StoreView};

verus! {

/// The storage engine.  `open` recovers it from durable bytes; `set` is a
/// durable last-write-wins upsert; `get` returns the newest record for a
/// key across the memtable and the index.
pub struct LsmEngine {
    memtable: MemTable,
    index: Index,
    store: Store,
    threshold: usize,
}

impl View for LsmEngine {
    type V = KvMap;

    /// The user-visible map: the read protocol applied to the memtable
    /// and the index.
    closed spec fn view(&self) -> KvMap {
        combined(self.memtable@, self.index@)
    }
}

impl LsmEngine {
    /// The volatile state: memtable and index contents.
    pub closed spec fn model(&self) -> EngineModel {
        EngineModel { mem: self.memtable@, idx: self.index@ }
    }

    /// The live memtable contents.
    pub open spec fn mem_map(&self) -> KvMap {
        self.model().mem
    }

    /// The index contents.
    pub open spec fn idx_map(&self) -> KvMap {
        self.model().idx
    }

    /// The durable bytes the engine has written.
    pub closed spec fn store_view(&self) -> StoreView {
        self.store@
    }

    /// How many SSTs exist; they carry sequence numbers `1..=sst_count`.
    pub open spec fn sst_count(&self) -> int {
        self.store_view().ssts.len() as int
    }

    /// The flush threshold, in memtable entries.
    pub open spec fn threshold_spec(&self) -> nat {
        self.threshold_value() as nat
    }

    pub closed spec fn threshold_value(&self) -> usize {
        self.threshold
    }

    /// The engine's invariant: the WAL parses and replays to exactly the
    /// live memtable, every SST parses, and merging them in order yields
    /// exactly the index.
    pub closed spec fn wf(&self) -> bool {
        &&& spec_parse_records(self.store@.wal, 0) is Some
        &&& self.memtable@ == kv_upsert_seq(
            KvMap::empty(),
            spec_parse_records(self.store@.wal, 0).unwrap(),
        )
        &&& sst_seq_parses(self.store@.ssts)
        &&& self.index@ == recovered_index(self.store@.ssts)
        &&& self.memtable.wf()
        &&& self.index.wf()
    }

    /// The invariant is exactly round-trip durability: recovering from the
    /// engine's own durable bytes rebuilds its live state, so every read
    /// after a reopen sees what it saw before.
    pub proof fn lemma_durable(&self)
        requires
            self.wf(),
        ensures
            sst_seq_parses(self.store_view().ssts),
            recovered_model(self.store_view()) == self.model(),
            store_visible(self.store_view()) == self@,
    {
        let ws = spec_parse_records(self.store@.wal, 0).unwrap();
        codec::lemma_tolerant_of_strict(self.store@.wal, 0);
        assert(spec_parse_tolerant(self.store@.wal, 0) == ws);
        assert(recovered_model(self.store_view()) =~= self.model());
    }

    /// The visible map is the read protocol over the volatile state.
    pub proof fn lemma_view(&self)
        ensures
            self@ == model_visible(self.model()),
    {
    }

    /// Initializes or recovers an engine from durable bytes.
    ///
    /// Every SST is scanned in ascending sequence order and merged into a
    /// fresh index; a malformed SST refuses the open.  The WAL is then
    /// replayed into a fresh memtable, dropping a truncated or corrupt
    /// tail, and rewritten in that normalized form so later appends land
    /// on a well-formed log.
    pub fn open(store: Store, threshold: usize) -> (r: Result<LsmEngine>)
        ensures
            r is Ok <==> sst_seq_parses(store@.ssts),
            r matches Ok(e) ==> {
                &&& e.wf()
                &&& e.model() == recovered_model(store@)
                &&& e@ == store_visible(store@)
                &&& e.sst_count() == store@.ssts.len()
                &&& e.threshold_spec() == threshold
                &&& e.store_view().ssts == store@.ssts
            },
            r matches Err(err) ==> err is Recovery,
    {
        let ghost s0 = store@;
        let mut st = store;
        proof {
            assert(st@ == s0);
        }
        let mut index = Index::new();
        let n = st.ssts.len();
        let mut i: usize = 0;
        while i < n
            invariant
                i <= n,
                n == st@.ssts.len(),
                st@ == s0,
                s0 == store@,
                index@ == recovered_index(s0.ssts.take(i as int)),
                index.wf(),
                sst_seq_parses(s0.ssts.take(i as int)),
            decreases n - i,
        {
            match codec::decode_records(&st.ssts[i]) {
                None => {
                    proof {
                        assert(s0.ssts[i as int] == st.ssts@[i as int]@);
                        assert(spec_parse_records(s0.ssts[i as int], 0) is None);
                        assert(!sst_seq_parses(s0.ssts));
                    }
                    return Err(DatastoreError::Recovery);
                },
                Some(recs) => {
                    index.merge_records(&recs);
                    proof {
                        let taken = s0.ssts.take(i + 1);
                        assert(taken.drop_last() =~= s0.ssts.take(i as int));
                        assert(taken.last() == s0.ssts[i as int]);
                        assert(s0.ssts[i as int] == st.ssts@[i as int]@);
                        assert(spec_parse_records(taken.last(), 0) == Some(record_views(recs@)));
                        assert(recovered_index(taken) == index@);
                        assert forall|j: int|
                            0 <= j < taken.len() implies spec_parse_records(
                            #[trigger] taken[j],
                            0,
                        ) is Some by {
                            if j < i {
                                assert(taken[j] == s0.ssts.take(i as int)[j]);
                            }
                        }
                    }
                },
            }
            i = i + 1;
        }
        proof {
            assert(s0.ssts.take(n as int) =~= s0.ssts);
        }
        let wal_records = codec::decode_records_tolerant(&st.wal);
        let new_wal = codec::encode_records(&wal_records);
        st.wal = new_wal;
        proof {
            assert(st@.wal.subrange(0, st@.wal.len() as int) =~= st@.wal);
            codec::lemma_parse_of_encoded(record_views(wal_records@), st@.wal, 0);
        }
        let mut memtable = MemTable::new();
        let mut j: usize = 0;
        while j < wal_records.len()
            invariant
                j <= wal_records@.len(),
                memtable@ == kv_upsert_seq(
                    KvMap::empty(),
                    record_views(wal_records@.take(j as int)),
                ),
                memtable.wf(),
            decreases wal_records@.len() - j,
        {
            proof {
                lemma_kv_upsert_seq_push(
                    KvMap::empty(),
                    record_views(wal_records@.take(j as int)),
                    wal_records@[j as int]@,
                );
                assert(record_views(wal_records@.take(j as int)).push(wal_records@[j as int]@)
                    =~= record_views(wal_records@.take(j + 1)));
            }
            let rec = &wal_records[j];
            memtable.set(
                MemTableEntry {
                    key: rec.key.clone(),
                    value: rec.value.clone(),
                    timestamp: rec.timestamp,
                },
            );
            j = j + 1;
        }
        proof {
            assert(wal_records@.take(wal_records@.len() as int) =~= wal_records@);
        }
        let engine = LsmEngine { memtable, index, store: st, threshold };
        proof {
            assert(engine.model() =~= recovered_model(s0));
            assert(engine@ =~= store_visible(s0));
        }
        Ok(engine)
    }

    /// Flushes the live memtable: its records are written, in ascending
    /// key order, as the next SST; the SST is merged into the index; the
    /// WAL is truncated; the memtable is emptied.
    fn flush(&mut self)
        requires
            old(self).wf(),
        ensures
            final(self).wf(),
            final(self).model() == (EngineModel {
                mem: KvMap::empty(),
                idx: merge_map(old(self).model().idx, old(self).model().mem),
            }),
            final(self).sst_count() == old(self).sst_count() + 1,
            final(self).threshold_spec() == old(self).threshold_spec(),
            final(self).store_view().wal == Seq::<u8>::empty(),
            final(self).store_view().ssts.drop_last() == old(self).store_view().ssts,
            ({
                let parsed = spec_parse_records(final(self).store_view().ssts.last(), 0);
                &&& parsed is Some
                &&& sorted_by_key(parsed.unwrap())
                &&& records_match_map(parsed.unwrap(), old(self).model().mem)
            }),
    {
        let records = self.memtable.entries();
        let bytes = codec::encode_records(&records);
        let ghost old_ssts = self.store@.ssts;
        self.store.ssts.push(bytes);
        proof {
            assert(self.store@.ssts =~= old_ssts.push(
                codec::spec_encode_records(record_views(records@)),
            ));
        }
        self.index.read_memtable(&self.memtable);
        self.store.wal.clear();
        self.memtable.clear();
        proof {
            let new_sst = self.store@.ssts.last();
            assert(new_sst.subrange(0, new_sst.len() as int) =~= new_sst);
            codec::lemma_parse_of_encoded(record_views(records@), new_sst, 0);
            assert(self.store@.ssts.drop_last() =~= old_ssts);
            assert(sst_seq_parses(self.store@.ssts)) by {
                assert(forall|j: int|
                    0 <= j < old_ssts.len() ==> #[trigger] self.store@.ssts[j] == old_ssts[j]);
            }
            lemma_merge_records(old(self).model().idx, record_views(records@), old(self).model().mem);
            assert(spec_parse_records(Seq::<u8>::empty(), 0) == Some(Seq::<RecordView>::empty()));
            assert(kv_upsert_seq(KvMap::empty(), Seq::<RecordView>::empty()) == KvMap::empty());
            assert(final(self).model() =~= (EngineModel {
                mem: KvMap::empty(),
                idx: merge_map(old(self).model().idx, old(self).model().mem),
            }));
        }
    }

    /// A durable upsert: the record is appended to the WAL before the
    /// memtable is touched, and a threshold crossing flushes the table
    /// before the call returns.  A read of this key afterwards sees a
    /// timestamp at least as new as this write's.
    pub fn set(&mut self, key: String, value: String, timestamp: u128) -> (r: Result<()>)
        requires
            old(self).wf(),
        ensures
            r is Ok,
            final(self).wf(),
            final(self).threshold_spec() == old(self).threshold_spec(),
            final(self).model() == model_set(
                old(self).model(),
                RecordView { key: key@, value: value@, timestamp },
                old(self).threshold_spec(),
            ),
            final(self)@ == model_visible(final(self).model()),
            final(self)@.contains_key(key@) && final(self)@[key@].1 >= timestamp,
            ({
                let m1 = kv_upsert(
                    old(self).model().mem,
                    RecordView { key: key@, value: value@, timestamp },
                );
                if m1.dom().len() > old(self).threshold_spec() {
                    // The flush committed: the retired memtable's records
                    // stand, in ascending key order, as the one new SST;
                    // every older SST is untouched; the WAL is truncated.
                    &&& final(self).sst_count() == old(self).sst_count() + 1
                    &&& final(self).store_view().ssts.drop_last() == old(self).store_view().ssts
                    &&& final(self).store_view().wal == Seq::<u8>::empty()
                    &&& ({
                        let parsed = spec_parse_records(final(self).store_view().ssts.last(), 0);
                        &&& parsed is Some
                        &&& sorted_by_key(parsed.unwrap())
                        &&& records_match_map(parsed.unwrap(), m1)
                    })
                } else {
                    // No flush: the record's encoding was appended to the
                    // WAL and every SST is untouched.
                    &&& final(self).sst_count() == old(self).sst_count()
                    &&& final(self).store_view().ssts == old(self).store_view().ssts
                    &&& final(self).store_view().wal == old(self).store_view().wal
                        + codec::spec_encode_record(
                        RecordView { key: key@, value: value@, timestamp },
                    )
                }
            }),
    {
        let ghost rv = RecordView { key: key@, value: value@, timestamp };
        let ghost ws = spec_parse_records(self.store@.wal, 0).unwrap();
        let record = Record { key, value, timestamp };
        let mut enc = codec::encode_record(&record);
        proof {
            codec::lemma_parse_append(self.store@.wal, rv);
        }
        self.store.wal.append(&mut enc);
        proof {
            lemma_kv_upsert_seq_push(KvMap::empty(), ws, rv);
        }
        self.memtable.set(
            MemTableEntry {
                key: record.key.clone(),
                value: record.value.clone(),
                timestamp: record.timestamp,
            },
        );
        if self.memtable.len() > self.threshold {
            self.flush();
        }
        proof {
            let m1 = kv_upsert(old(self).model().mem, rv);
            if m1.dom().len() > old(self).threshold_spec() {
            } else {
                assert(final(self).model() =~= model_set(
                    old(self).model(),
                    rv,
                    old(self).threshold_spec(),
                ));
            }
            assert(m1.contains_key(key@) && m1[key@].1 >= timestamp);
        }
        Ok(())
    }

    /// The latest record for a key: the memtable's if it is at least as
    /// new as the index's, otherwise the index's.
    pub fn get(&self, key: String) -> (r: Option<Record>)
        ensures
            match r {
                Some(rec) => self@.contains_key(key@) && rec.key@ == key@ && self@[key@] == (
                    rec.value@,
                    rec.timestamp,
                ),
                None => !self@.contains_key(key@),
            },
    {
        let mem_hit = self.memtable.get(key.clone());
        let idx_hit = self.index.get(key.clone());
        match (mem_hit, idx_hit) {
            (Some(m), Some(ix)) => {
                if m.timestamp >= ix.timestamp {
                    Some(Record { key, value: m.value, timestamp: m.timestamp })
                } else {
                    Some(ix)
                }
            },
            (Some(m), None) => Some(Record { key, value: m.value, timestamp: m.timestamp }),
            (None, Some(ix)) => Some(ix),
            (None, None) => None,
        }
    }

    /// How many SSTs have been written.
    pub fn num_ssts(&self) -> (n: usize)
        ensures
            n == self.sst_count(),
    {
        self.store.ssts.len()
    }

    /// The configured flush threshold, in memtable entries.
    pub fn threshold(&self) -> (t: usize)
        ensures
            t == self.threshold_value(),
    {
        self.threshold
    }

    /// A deep copy of the durable bytes, as a crash at this instant would
    /// leave them.
    pub fn snapshot_store(&self) -> (r: Store)
        ensures
            r@ == self.store_view(),
    {
        self.store.snapshot()
    }

    /// Shuts the engine down, handing back its durable bytes.
    pub fn into_store(self) -> (r: Store)
        ensures
            r@ == self.store_view(),
    {
        self.store
    }
}

} // verus!
