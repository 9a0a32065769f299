//! The store's laws, proved against the model that the engine's contracts
//! are stated over: last-write-wins determinism, independence from write
//! order, crash safety of every flush step, and no loss of records across
//! a threshold crossing.
//!
//! Round-trip durability itself — recovering an engine's own durable
//! bytes rebuilds its live state — is [`crate::lsm::LsmEngine::lemma_durable`].

use vstd::prelude::*;

use crate::codec::{all_encodable, spec_encode_records, spec_parse_records, spec_parse_tolerant};
use crate::model::{
    combined, kv_upsert, kv_upsert_seq, lemma_kv_upsert_seq_push, lemma_merge_records,
    merge_map, model_set, model_run, model_visible, records_match_map, recovered_index,
    recovered_mem, sorted_by_key, sst_seq_parses, KvMap,
};
use crate::record::RecordView;
use crate::store::{store_visible, StoreView};

verus! {

/// No key is held by the memtable and the index at the same timestamp but
/// with different values.  Index merging is strictly last-write-wins, so
/// such a tie is the one situation where a flush can change which value a
/// reader sees; every law that crosses a flush assumes it away.
pub open spec fn tie_free(mem: KvMap, idx: KvMap) -> bool {
    forall|k: Seq<char>|
        #[trigger] mem.contains_key(k) && idx.contains_key(k) && mem[k].1 == idx[k].1
            ==> mem[k].0 == idx[k].0
}

/// Upserting into the memtable moves the visible map exactly as an upsert
/// on the visible map itself would.
pub proof fn lemma_combined_upsert(mem: KvMap, idx: KvMap, r: RecordView)
    ensures
        combined(kv_upsert(mem, r), idx) == kv_upsert(combined(mem, idx), r),
{
    assert(combined(kv_upsert(mem, r), idx) =~= kv_upsert(combined(mem, idx), r));
}

/// An empty memtable hides nothing: the visible map is the index.
pub proof fn lemma_combined_empty(idx: KvMap)
    ensures
        combined(KvMap::empty(), idx) == idx,
{
    assert(combined(KvMap::empty(), idx) =~= idx);
}

/// Re-merging the memtable into the index does not change what a reader
/// sees while the memtable is still live: the memtable wins ties on the
/// read path, and strictly newer index entries were winning already.
pub proof fn lemma_combined_after_merge(mem: KvMap, idx: KvMap)
    ensures
        combined(mem, merge_map(idx, mem)) == combined(mem, idx),
{
    assert(combined(mem, merge_map(idx, mem)) =~= combined(mem, idx));
}

/// Without conflicting ties, retiring the memtable into the index leaves
/// the visible map unchanged.
pub proof fn lemma_flush_preserves_visible(mem: KvMap, idx: KvMap)
    requires
        tie_free(mem, idx),
    ensures
        combined(KvMap::empty(), merge_map(idx, mem)) == combined(mem, idx),
{
    lemma_combined_empty(merge_map(idx, mem));
    assert(merge_map(idx, mem) =~= combined(mem, idx));
}

/// Crash safety of the flush protocol: however the flush protocol is cut
/// short, recovery rebuilds a state that reads the same.
///
/// `wal`/`ssts` are the durable bytes of a well-formed engine whose
/// memtable holds `mem` and whose index holds `idx`; `rs` are the
/// memtable's sorted entries, the records the flush writes as the next
/// SST.  Recovery after a crash before the SST became visible (`ssts`
/// unchanged, `wal` intact) and after a crash between SST rename and WAL
/// truncation (`ssts` extended, `wal` intact) both read exactly as the
/// engine did before the flush; the strict-greater merge absorbs the
/// records that the intact WAL replays a second time.  Recovery after the
/// whole protocol reads as the engine after the flush does — which is the
/// same map again provided no conflicting tie between memtable and index
/// was pending.
pub proof fn lemma_flush_crash_safety(
    mem: KvMap,
    idx: KvMap,
    wal: Seq<u8>,
    ssts: Seq<Seq<u8>>,
    rs: Seq<RecordView>,
)
    requires
        spec_parse_records(wal, 0) is Some,
        mem == kv_upsert_seq(KvMap::empty(), spec_parse_records(wal, 0).unwrap()),
        sst_seq_parses(ssts),
        idx == recovered_index(ssts),
        sorted_by_key(rs),
        records_match_map(rs, mem),
        all_encodable(rs),
        tie_free(mem, idx),
    ensures
        store_visible(StoreView { wal, ssts }) == combined(mem, idx),
        store_visible(StoreView { wal, ssts: ssts.push(spec_encode_records(rs)) }) == combined(
            mem,
            idx,
        ),
        store_visible(
            StoreView { wal: Seq::<u8>::empty(), ssts: ssts.push(spec_encode_records(rs)) },
        ) == combined(mem, idx),
        store_visible(
            StoreView { wal: Seq::<u8>::empty(), ssts: ssts.push(spec_encode_records(rs)) },
        ) == combined(KvMap::empty(), merge_map(idx, mem)),
{
    let ws = spec_parse_records(wal, 0).unwrap();
    crate::codec::lemma_tolerant_of_strict(wal, 0);
    assert(recovered_mem(wal) == mem);

    // Crash before the SST became visible: nothing durable changed.
    assert(store_visible(StoreView { wal, ssts }) == combined(mem, idx));

    // The extended SST list recovers to the index with the memtable
    // merged in.
    let bytes = spec_encode_records(rs);
    let ssts2 = ssts.push(bytes);
    assert(bytes.subrange(0, bytes.len() as int) =~= bytes);
    crate::codec::lemma_parse_of_encoded(rs, bytes, 0);
    assert(ssts2.drop_last() =~= ssts);
    assert(ssts2.last() == bytes);
    lemma_merge_records(idx, rs, mem);
    assert(recovered_index(ssts2) == merge_map(idx, mem));

    // Crash between rename and truncation: the WAL replays the same
    // records over the merged index, and the memtable wins read ties.
    lemma_combined_after_merge(mem, idx);
    assert(store_visible(StoreView { wal, ssts: ssts2 }) == combined(mem, idx));

    // The whole protocol ran: the WAL is empty, the memtable recovered
    // from it is empty.
    assert(spec_parse_tolerant(Seq::<u8>::empty(), 0) == Seq::<RecordView>::empty());
    assert(recovered_mem(Seq::<u8>::empty()) == KvMap::empty());
    lemma_flush_preserves_visible(mem, idx);
    lemma_combined_empty(merge_map(idx, mem));
}

/// No two writes to the same key carry the same timestamp.
pub open spec fn distinct_key_timestamps(ops: Seq<RecordView>) -> bool {
    forall|i: int, j: int|
        0 <= i < j < ops.len() && (#[trigger] ops[i]).key == (#[trigger] ops[j]).key ==> ops[i].timestamp
            != ops[j].timestamp
}

/// Every write names its own key.
pub open spec fn distinct_keys(ops: Seq<RecordView>) -> bool {
    forall|i: int, j: int|
        0 <= i < j < ops.len() ==> (#[trigger] ops[i]).key != (#[trigger] ops[j]).key
}

/// Every entry of `m` was put there by one of `ops`.
pub open spec fn table_from_ops(m: KvMap, ops: Seq<RecordView>) -> bool {
    forall|k: Seq<char>| #[trigger]
        m.contains_key(k) ==> exists|i: int|
            0 <= i < ops.len() && (#[trigger] ops[i]).key == k && ops[i].value == m[k].0
                && ops[i].timestamp == m[k].1
}

/// The memtable and the index never hold a key at the same timestamp.
pub open spec fn strict_tie_free(mem: KvMap, idx: KvMap) -> bool {
    forall|k: Seq<char>|
        #[trigger] mem.contains_key(k) && idx.contains_key(k) ==> mem[k].1 != idx[k].1
}

/// While per-key timestamps never repeat, the engine behaves exactly as a
/// plain last-write-wins fold of the writes, whatever flushes happen in
/// between, and the tables only ever hold what some write put there.
pub proof fn lemma_run_invariant(ops: Seq<RecordView>, threshold: nat)
    requires
        distinct_key_timestamps(ops),
    ensures
        model_visible(model_run(ops, threshold)) == kv_upsert_seq(KvMap::empty(), ops),
        table_from_ops(model_run(ops, threshold).mem, ops),
        table_from_ops(model_run(ops, threshold).idx, ops),
        strict_tie_free(model_run(ops, threshold).mem, model_run(ops, threshold).idx),
    decreases ops.len(),
{
    if ops.len() == 0 {
        lemma_combined_empty(KvMap::empty());
    } else {
        let prev = ops.drop_last();
        let r = ops.last();
        let last = prev.len() as int;
        assert(distinct_key_timestamps(prev)) by {
            assert(forall|i: int| 0 <= i < prev.len() ==> #[trigger] prev[i] == ops[i]);
        }
        lemma_run_invariant(prev, threshold);
        let em = model_run(prev, threshold);
        let m1 = kv_upsert(em.mem, r);
        assert(forall|i: int| 0 <= i < prev.len() ==> #[trigger] prev[i] == ops[i]);
        assert(ops[last] == r);

        // Everything in the upserted memtable came from some write.
        assert(table_from_ops(m1, ops)) by {
            assert forall|k: Seq<char>| #[trigger] m1.contains_key(k) implies exists|i: int|
                0 <= i < ops.len() && (#[trigger] ops[i]).key == k && ops[i].value == m1[k].0
                    && ops[i].timestamp == m1[k].1 by {
                if k == r.key && (!em.mem.contains_key(k) || r.timestamp >= em.mem[k].1) {
                    assert(ops[last].key == k && ops[last].value == m1[k].0 && ops[last].timestamp
                        == m1[k].1);
                } else {
                    assert(em.mem.contains_key(k) && m1[k] == em.mem[k]);
                    let i = choose|i: int|
                        0 <= i < prev.len() && (#[trigger] prev[i]).key == k && prev[i].value
                            == em.mem[k].0 && prev[i].timestamp == em.mem[k].1;
                    assert(ops[i].key == k && ops[i].value == m1[k].0 && ops[i].timestamp
                        == m1[k].1);
                }
            }
        }

        // The fresh write cannot tie with an index entry: the index only
        // holds earlier writes, and their timestamps differ from this
        // one's.
        assert(strict_tie_free(m1, em.idx)) by {
            assert forall|k: Seq<char>|
                #[trigger] m1.contains_key(k) && em.idx.contains_key(k) implies m1[k].1
                != em.idx[k].1 by {
                if k == r.key && (!em.mem.contains_key(k) || r.timestamp >= em.mem[k].1) {
                    let i = choose|i: int|
                        0 <= i < prev.len() && (#[trigger] prev[i]).key == k && prev[i].value
                            == em.idx[k].0 && prev[i].timestamp == em.idx[k].1;
                    assert(ops[i].key == ops[last].key);
                    assert(ops[i].timestamp != ops[last].timestamp);
                } else {
                    assert(em.mem.contains_key(k) && m1[k] == em.mem[k]);
                }
            }
        }
        assert(tie_free(m1, em.idx));

        // The visible map moves by one upsert, flush or no flush.
        lemma_combined_upsert(em.mem, em.idx, r);
        lemma_kv_upsert_seq_push(KvMap::empty(), prev, r);
        assert(prev.push(r) =~= ops);
        let em2 = model_set(em, r, threshold);
        if m1.dom().len() > threshold {
            lemma_flush_preserves_visible(m1, em.idx);
            assert(model_visible(em2) == combined(KvMap::empty(), merge_map(em.idx, m1)));
            assert(table_from_ops(em2.idx, ops)) by {
                assert forall|k: Seq<char>| #[trigger]
                    em2.idx.contains_key(k) implies exists|i: int|
                    0 <= i < ops.len() && (#[trigger] ops[i]).key == k && ops[i].value
                        == em2.idx[k].0 && ops[i].timestamp == em2.idx[k].1 by {
                    if m1.contains_key(k) && (!em.idx.contains_key(k) || m1[k].1 > em.idx[k].1) {
                        assert(em2.idx[k] == m1[k]);
                        let i = choose|i: int|
                            0 <= i < ops.len() && (#[trigger] ops[i]).key == k && ops[i].value
                                == m1[k].0 && ops[i].timestamp == m1[k].1;
                        assert(ops[i].value == em2.idx[k].0 && ops[i].timestamp == em2.idx[k].1);
                    } else {
                        assert(em2.idx[k] == em.idx[k]);
                        let i = choose|i: int|
                            0 <= i < prev.len() && (#[trigger] prev[i]).key == k && prev[i].value
                                == em.idx[k].0 && prev[i].timestamp == em.idx[k].1;
                        assert(ops[i].key == k && ops[i].value == em2.idx[k].0 && ops[i].timestamp
                            == em2.idx[k].1);
                    }
                }
            }
        } else {
            assert(em2.mem == m1 && em2.idx == em.idx);
            assert(table_from_ops(em2.idx, ops)) by {
                assert forall|k: Seq<char>| #[trigger]
                    em2.idx.contains_key(k) implies exists|i: int|
                    0 <= i < ops.len() && (#[trigger] ops[i]).key == k && ops[i].value
                        == em2.idx[k].0 && ops[i].timestamp == em2.idx[k].1 by {
                    let i = choose|i: int|
                        0 <= i < prev.len() && (#[trigger] prev[i]).key == k && prev[i].value
                            == em.idx[k].0 && prev[i].timestamp == em.idx[k].1;
                    assert(ops[i].key == k && ops[i].value == em2.idx[k].0 && ops[i].timestamp
                        == em2.idx[k].1);
                }
            }
        }
    }
}

/// What a last-write-wins fold holds for a key: the value of the write
/// with the highest timestamp for that key, ties going to the latest
/// arrival.
pub proof fn lemma_fold_latest(ops: Seq<RecordView>, k: Seq<char>)
    ensures
        kv_upsert_seq(KvMap::empty(), ops).contains_key(k) <==> exists|i: int|
            0 <= i < ops.len() && (#[trigger] ops[i]).key == k,
        kv_upsert_seq(KvMap::empty(), ops).contains_key(k) ==> ({
            let m = kv_upsert_seq(KvMap::empty(), ops);
            exists|i: int|
                0 <= i < ops.len() && (#[trigger] ops[i]).key == k && m[k] == (
                    ops[i].value,
                    ops[i].timestamp,
                ) && (forall|j: int|
                    0 <= j < ops.len() && (#[trigger] ops[j]).key == k ==> ops[j].timestamp
                        <= m[k].1) && (forall|j: int|
                    i < j < ops.len() && (#[trigger] ops[j]).key == k ==> ops[j].timestamp
                        < m[k].1)
        }),
    decreases ops.len(),
{
    if ops.len() == 0 {
    } else {
        let prev = ops.drop_last();
        let r = ops.last();
        let last = prev.len() as int;
        lemma_fold_latest(prev, k);
        lemma_kv_upsert_seq_push(KvMap::empty(), prev, r);
        assert(prev.push(r) =~= ops);
        let mp = kv_upsert_seq(KvMap::empty(), prev);
        let m = kv_upsert_seq(KvMap::empty(), ops);
        assert(m == kv_upsert(mp, r));
        assert(forall|i: int| 0 <= i < prev.len() ==> #[trigger] prev[i] == ops[i]);
        if r.key == k {
            if !mp.contains_key(k) {
                assert(m[k] == (r.value, r.timestamp));
                assert(ops[last].key == k);
                assert forall|j: int|
                    0 <= j < ops.len() && (#[trigger] ops[j]).key == k implies ops[j].timestamp
                    <= m[k].1 by {
                    if j < last {
                        assert(prev[j].key == k);
                        assert(mp.contains_key(k));
                    }
                }
                assert(0 <= last < ops.len() && ops[last].key == k && m[k] == (
                    ops[last].value,
                    ops[last].timestamp,
                ) && (forall|j: int|
                    0 <= j < ops.len() && (#[trigger] ops[j]).key == k ==> ops[j].timestamp
                        <= m[k].1) && (forall|j: int|
                    last < j < ops.len() && (#[trigger] ops[j]).key == k ==> ops[j].timestamp
                        < m[k].1));
            } else if r.timestamp >= mp[k].1 {
                assert(m[k] == (r.value, r.timestamp));
                assert forall|j: int|
                    0 <= j < ops.len() && (#[trigger] ops[j]).key == k implies ops[j].timestamp
                    <= m[k].1 by {
                    if j < last {
                        assert(prev[j].key == k);
                        assert(ops[j].timestamp <= mp[k].1);
                    }
                }
                assert(0 <= last < ops.len() && ops[last].key == k && m[k] == (
                    ops[last].value,
                    ops[last].timestamp,
                ) && (forall|j: int|
                    0 <= j < ops.len() && (#[trigger] ops[j]).key == k ==> ops[j].timestamp
                        <= m[k].1) && (forall|j: int|
                    last < j < ops.len() && (#[trigger] ops[j]).key == k ==> ops[j].timestamp
                        < m[k].1));
            } else {
                assert(m[k] == mp[k]);
                let i = choose|i: int|
                    0 <= i < prev.len() && (#[trigger] prev[i]).key == k && mp[k] == (
                        prev[i].value,
                        prev[i].timestamp,
                    ) && (forall|j: int|
                        0 <= j < prev.len() && (#[trigger] prev[j]).key == k ==> prev[j].timestamp
                            <= mp[k].1) && (forall|j: int|
                        i < j < prev.len() && (#[trigger] prev[j]).key == k ==> prev[j].timestamp
                            < mp[k].1);
                assert(ops[i].key == k && m[k] == (ops[i].value, ops[i].timestamp));
                assert forall|j: int|
                    0 <= j < ops.len() && (#[trigger] ops[j]).key == k implies ops[j].timestamp
                    <= m[k].1 by {
                    if j < last {
                        assert(prev[j].key == k);
                    }
                }
                assert forall|j: int|
                    i < j < ops.len() && (#[trigger] ops[j]).key == k implies ops[j].timestamp
                    < m[k].1 by {
                    if j < last {
                        assert(prev[j].key == k);
                    }
                }
                assert(0 <= i < ops.len() && ops[i].key == k && m[k] == (
                    ops[i].value,
                    ops[i].timestamp,
                ) && (forall|j: int|
                    0 <= j < ops.len() && (#[trigger] ops[j]).key == k ==> ops[j].timestamp
                        <= m[k].1) && (forall|j: int|
                    i < j < ops.len() && (#[trigger] ops[j]).key == k ==> ops[j].timestamp
                        < m[k].1));
            }
        } else {
            assert(m.contains_key(k) <==> mp.contains_key(k));
            if mp.contains_key(k) {
                assert(m[k] == mp[k]);
                let i = choose|i: int|
                    0 <= i < prev.len() && (#[trigger] prev[i]).key == k && mp[k] == (
                        prev[i].value,
                        prev[i].timestamp,
                    ) && (forall|j: int|
                        0 <= j < prev.len() && (#[trigger] prev[j]).key == k ==> prev[j].timestamp
                            <= mp[k].1) && (forall|j: int|
                        i < j < prev.len() && (#[trigger] prev[j]).key == k ==> prev[j].timestamp
                            < mp[k].1);
                assert(ops[i].key == k && m[k] == (ops[i].value, ops[i].timestamp));
                assert forall|j: int|
                    0 <= j < ops.len() && (#[trigger] ops[j]).key == k implies ops[j].timestamp
                    <= m[k].1 by {
                    assert(j != last);
                    assert(prev[j].key == k);
                }
                assert forall|j: int|
                    i < j < ops.len() && (#[trigger] ops[j]).key == k implies ops[j].timestamp
                    < m[k].1 by {
                    assert(j != last);
                    assert(prev[j].key == k);
                }
                assert(0 <= i < ops.len() && ops[i].key == k && m[k] == (
                    ops[i].value,
                    ops[i].timestamp,
                ) && (forall|j: int|
                    0 <= j < ops.len() && (#[trigger] ops[j]).key == k ==> ops[j].timestamp
                        <= m[k].1) && (forall|j: int|
                    i < j < ops.len() && (#[trigger] ops[j]).key == k ==> ops[j].timestamp
                        < m[k].1));
            } else {
                if exists|i: int| 0 <= i < ops.len() && (#[trigger] ops[i]).key == k {
                    let i = choose|i: int| 0 <= i < ops.len() && (#[trigger] ops[i]).key == k;
                    assert(i != last);
                    assert(prev[i].key == k);
                }
            }
        }
    }
}

/// Last-write-wins determinism: as long as per-key timestamps never
/// repeat, a read returns the value of the write with the highest
/// timestamp for that key, no matter how the writes interleaved with
/// flushes.
pub proof fn lemma_lww_determinism(ops: Seq<RecordView>, threshold: nat, k: Seq<char>)
    requires
        distinct_key_timestamps(ops),
    ensures
        model_visible(model_run(ops, threshold)) == kv_upsert_seq(KvMap::empty(), ops),
        model_visible(model_run(ops, threshold)).contains_key(k) <==> exists|i: int|
            0 <= i < ops.len() && (#[trigger] ops[i]).key == k,
        model_visible(model_run(ops, threshold)).contains_key(k) ==> ({
            let m = model_visible(model_run(ops, threshold));
            exists|i: int|
                0 <= i < ops.len() && (#[trigger] ops[i]).key == k && m[k] == (
                    ops[i].value,
                    ops[i].timestamp,
                ) && (forall|j: int|
                    0 <= j < ops.len() && (#[trigger] ops[j]).key == k ==> ops[j].timestamp
                        <= m[k].1)
        }),
{
    lemma_run_invariant(ops, threshold);
    lemma_fold_latest(ops, k);
}

/// Ordering independence: two write sequences made of the same writes in
/// any order leave the engine reading identically.
pub proof fn lemma_order_independence(ops1: Seq<RecordView>, ops2: Seq<RecordView>, threshold: nat)
    requires
        distinct_key_timestamps(ops1),
        distinct_key_timestamps(ops2),
        ops1.to_multiset() == ops2.to_multiset(),
    ensures
        model_visible(model_run(ops1, threshold)) == model_visible(model_run(ops2, threshold)),
{
    broadcast use vstd::seq_lib::group_seq_properties;

    lemma_run_invariant(ops1, threshold);
    lemma_run_invariant(ops2, threshold);
    let m1 = kv_upsert_seq(KvMap::empty(), ops1);
    let m2 = kv_upsert_seq(KvMap::empty(), ops2);
    assert forall|k: Seq<char>| true implies #[trigger] m1.contains_key(k) == m2.contains_key(k)
        && (m1.contains_key(k) ==> m1[k] == m2[k]) by {
        lemma_fold_latest(ops1, k);
        lemma_fold_latest(ops2, k);
        ops1.to_multiset_ensures();
        ops2.to_multiset_ensures();
        if m1.contains_key(k) {
            let i1 = choose|i: int|
                0 <= i < ops1.len() && (#[trigger] ops1[i]).key == k && m1[k] == (
                    ops1[i].value,
                    ops1[i].timestamp,
                ) && (forall|j: int|
                    0 <= j < ops1.len() && (#[trigger] ops1[j]).key == k ==> ops1[j].timestamp
                        <= m1[k].1);
            assert(ops1.contains(ops1[i1]));
            assert(ops2.to_multiset().count(ops1[i1]) > 0);
            assert(ops2.contains(ops1[i1]));
            assert(m2.contains_key(k));
        }
        if m2.contains_key(k) {
            let i2 = choose|i: int|
                0 <= i < ops2.len() && (#[trigger] ops2[i]).key == k && m2[k] == (
                    ops2[i].value,
                    ops2[i].timestamp,
                ) && (forall|j: int|
                    0 <= j < ops2.len() && (#[trigger] ops2[j]).key == k ==> ops2[j].timestamp
                        <= m2[k].1);
            assert(ops2.contains(ops2[i2]));
            assert(ops1.to_multiset().count(ops2[i2]) > 0);
            assert(ops1.contains(ops2[i2]));
            assert(m1.contains_key(k));
        }
        if m1.contains_key(k) && m2.contains_key(k) {
            let i1 = choose|i: int|
                0 <= i < ops1.len() && (#[trigger] ops1[i]).key == k && m1[k] == (
                    ops1[i].value,
                    ops1[i].timestamp,
                ) && (forall|j: int|
                    0 <= j < ops1.len() && (#[trigger] ops1[j]).key == k ==> ops1[j].timestamp
                        <= m1[k].1);
            let i2 = choose|i: int|
                0 <= i < ops2.len() && (#[trigger] ops2[i]).key == k && m2[k] == (
                    ops2[i].value,
                    ops2[i].timestamp,
                ) && (forall|j: int|
                    0 <= j < ops2.len() && (#[trigger] ops2[j]).key == k ==> ops2[j].timestamp
                        <= m2[k].1);
            let r1 = ops1[i1];
            let r2 = ops2[i2];
            // Each winner is present in the other sequence, so the two
            // maximal timestamps agree.
            assert(ops1.contains(r1));
            assert(ops2.to_multiset().count(r1) > 0);
            assert(ops2.contains(r1));
            let j1 = choose|j: int| 0 <= j < ops2.len() && ops2[j] == r1;
            assert(ops2[j1].key == k);
            assert(r1.timestamp <= m2[k].1);
            assert(ops2.contains(r2));
            assert(ops1.to_multiset().count(r2) > 0);
            assert(ops1.contains(r2));
            let j2 = choose|j: int| 0 <= j < ops1.len() && ops1[j] == r2;
            assert(ops1[j2].key == k);
            assert(r2.timestamp <= m1[k].1);
            assert(r1.timestamp == r2.timestamp);
            // Same key, same timestamp: per-key distinctness makes the
            // two winners the same write.
            if j2 != i1 {
                assert(ops1[j2].key == ops1[i1].key);
                assert(ops1[j2].timestamp != ops1[i1].timestamp);
                assert(false);
            }
            assert(r1 == r2);
            assert(m1[k] == m2[k]);
        }
    }
    assert(m1 =~= m2);
}

/// No records are lost on a threshold crossing: writing any number of
/// distinct keys leaves exactly that many readable, however many flushes
/// the writes straddled.
pub proof fn lemma_no_lost_records(ops: Seq<RecordView>, threshold: nat)
    requires
        distinct_keys(ops),
    ensures
        model_visible(model_run(ops, threshold)).dom().finite(),
        model_visible(model_run(ops, threshold)).dom().len() == ops.len(),
    decreases ops.len(),
{
    lemma_run_invariant(ops, threshold);
    lemma_fold_card(ops);
}

/// A fold of writes to pairwise distinct keys holds exactly one entry per
/// write.
proof fn lemma_fold_card(ops: Seq<RecordView>)
    requires
        distinct_keys(ops),
    ensures
        kv_upsert_seq(KvMap::empty(), ops).dom().finite(),
        kv_upsert_seq(KvMap::empty(), ops).dom().len() == ops.len(),
    decreases ops.len(),
{
    if ops.len() == 0 {
        assert(kv_upsert_seq(KvMap::empty(), ops).dom() =~= Set::<Seq<char>>::empty());
    } else {
        let prev = ops.drop_last();
        let r = ops.last();
        assert(distinct_keys(prev)) by {
            assert(forall|i: int| 0 <= i < prev.len() ==> #[trigger] prev[i] == ops[i]);
        }
        lemma_fold_card(prev);
        lemma_kv_upsert_seq_push(KvMap::empty(), prev, r);
        assert(prev.push(r) =~= ops);
        let mp = kv_upsert_seq(KvMap::empty(), prev);
        lemma_fold_latest(prev, r.key);
        assert(!mp.contains_key(r.key)) by {
            if mp.contains_key(r.key) {
                let i = choose|i: int| 0 <= i < prev.len() && (#[trigger] prev[i]).key == r.key;
                assert(ops[i].key == ops[prev.len() as int].key);
            }
        }
        assert(kv_upsert_seq(KvMap::empty(), ops).dom() =~= mp.dom().insert(r.key));
    }
}

} // verus!
