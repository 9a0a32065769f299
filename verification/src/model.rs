//! The mathematical model of the store: byte-lexicographic key order,
//! last-write-wins map updates, and the state recovered from durable bytes.

use vstd::prelude::*;

use vstd::utf8::encode_utf8;

use crate::codec::{spec_parse_records, spec_parse_tolerant};
use crate::record::RecordView;

verus! {

/// The spec-level contents of a table: key to value and timestamp.
pub type KvMap = Map<Seq<char>, (Seq<char>, u128)>;

/// Lexicographic order on byte sequences.
pub open spec fn bytes_lt(a: Seq<u8>, b: Seq<u8>) -> bool
    decreases a.len(),
{
    if a.len() == 0 {
        b.len() > 0
    } else if b.len() == 0 {
        false
    } else if a[0] != b[0] {
        a[0] < b[0]
    } else {
        bytes_lt(a.drop_first(), b.drop_first())
    }
}

/// The order on keys: byte-lexicographic on their UTF-8 encodings.  This is
/// the order `String` keys sort in.
pub open spec fn key_lt(a: Seq<char>, b: Seq<char>) -> bool {
    bytes_lt(encode_utf8(a), encode_utf8(b))
}

pub proof fn lemma_bytes_lt_irreflexive(a: Seq<u8>)
    ensures
        !bytes_lt(a, a),
    decreases a.len(),
{
    if a.len() > 0 {
        lemma_bytes_lt_irreflexive(a.drop_first());
    }
}

/// Strictly ordered keys are distinct keys.
pub proof fn lemma_key_lt_ne(a: Seq<char>, b: Seq<char>)
    requires
        key_lt(a, b),
    ensures
        a != b,
{
    if a == b {
        lemma_bytes_lt_irreflexive(encode_utf8(a));
    }
}

/// The memtable update policy: an incoming record replaces the stored one
/// when its timestamp is greater than or equal to it (ties favour the newer
/// write); a strictly older record is rejected.
pub open spec fn kv_upsert(m: KvMap, r: RecordView) -> KvMap {
    if !m.contains_key(r.key) || r.timestamp >= m[r.key].1 {
        m.insert(r.key, (r.value, r.timestamp))
    } else {
        m
    }
}

/// The index merge policy: an incoming record replaces the stored one only
/// when its timestamp is strictly greater, so replaying the same log twice
/// is a no-op.
pub open spec fn kv_merge_one(m: KvMap, r: RecordView) -> KvMap {
    if !m.contains_key(r.key) || r.timestamp > m[r.key].1 {
        m.insert(r.key, (r.value, r.timestamp))
    } else {
        m
    }
}

/// A table's per-key timestamps are monotone non-decreasing over its
/// lifetime: an upsert never lowers a stored timestamp, and never drops a
/// key.
pub proof fn lemma_kv_upsert_monotone(m: KvMap, r: RecordView, k: Seq<char>)
    requires
        m.contains_key(k),
    ensures
        kv_upsert(m, r).contains_key(k),
        kv_upsert(m, r)[k].1 >= m[k].1,
{
}

/// The same holds under the index merge policy.
pub proof fn lemma_kv_merge_one_monotone(m: KvMap, r: RecordView, k: Seq<char>)
    requires
        m.contains_key(k),
    ensures
        kv_merge_one(m, r).contains_key(k),
        kv_merge_one(m, r)[k].1 >= m[k].1,
{
}

/// Folds a sequence of records into a map under the memtable policy.
pub open spec fn kv_upsert_seq(m: KvMap, rs: Seq<RecordView>) -> KvMap
    decreases rs.len(),
{
    if rs.len() == 0 {
        m
    } else {
        kv_upsert_seq(kv_upsert(m, rs[0]), rs.drop_first())
    }
}

/// Folds a sequence of records into a map under the index merge policy.
pub open spec fn kv_merge_seq(m: KvMap, rs: Seq<RecordView>) -> KvMap
    decreases rs.len(),
{
    if rs.len() == 0 {
        m
    } else {
        kv_merge_seq(kv_merge_one(m, rs[0]), rs.drop_first())
    }
}

pub proof fn lemma_kv_upsert_seq_push(m: KvMap, rs: Seq<RecordView>, r: RecordView)
    ensures
        kv_upsert_seq(m, rs.push(r)) == kv_upsert(kv_upsert_seq(m, rs), r),
    decreases rs.len(),
{
    if rs.len() == 0 {
        assert(rs.push(r)[0] == r);
        assert(rs.push(r).drop_first() =~= Seq::<RecordView>::empty());
        assert(kv_upsert_seq(m, rs.push(r)) == kv_upsert_seq(
            kv_upsert(m, r),
            Seq::<RecordView>::empty(),
        ));
        assert(kv_upsert_seq(kv_upsert(m, r), Seq::<RecordView>::empty()) == kv_upsert(m, r));
    } else {
        assert(rs.push(r)[0] == rs[0]);
        assert(rs.push(r).drop_first() =~= rs.drop_first().push(r));
        assert(kv_upsert_seq(m, rs.push(r)) == kv_upsert_seq(
            kv_upsert(m, rs[0]),
            rs.drop_first().push(r),
        ));
        lemma_kv_upsert_seq_push(kv_upsert(m, rs[0]), rs.drop_first(), r);
        assert(kv_upsert_seq(m, rs) == kv_upsert_seq(kv_upsert(m, rs[0]), rs.drop_first()));
    }
}

pub proof fn lemma_kv_merge_seq_push(m: KvMap, rs: Seq<RecordView>, r: RecordView)
    ensures
        kv_merge_seq(m, rs.push(r)) == kv_merge_one(kv_merge_seq(m, rs), r),
    decreases rs.len(),
{
    if rs.len() == 0 {
        assert(rs.push(r)[0] == r);
        assert(rs.push(r).drop_first() =~= Seq::<RecordView>::empty());
        assert(kv_merge_seq(m, rs.push(r)) == kv_merge_seq(
            kv_merge_one(m, r),
            Seq::<RecordView>::empty(),
        ));
        assert(kv_merge_seq(kv_merge_one(m, r), Seq::<RecordView>::empty()) == kv_merge_one(m, r));
    } else {
        assert(rs.push(r)[0] == rs[0]);
        assert(rs.push(r).drop_first() =~= rs.drop_first().push(r));
        assert(kv_merge_seq(m, rs.push(r)) == kv_merge_seq(
            kv_merge_one(m, rs[0]),
            rs.drop_first().push(r),
        ));
        lemma_kv_merge_seq_push(kv_merge_one(m, rs[0]), rs.drop_first(), r);
        assert(kv_merge_seq(m, rs) == kv_merge_seq(kv_merge_one(m, rs[0]), rs.drop_first()));
    }
}

/// The read protocol: a key is visible if either table holds it, and the
/// memtable's record wins unless the index holds a strictly newer one.
pub open spec fn combined(mem: KvMap, idx: KvMap) -> KvMap {
    Map::new(
        |k: Seq<char>| mem.contains_key(k) || idx.contains_key(k),
        |k: Seq<char>|
            if mem.contains_key(k) && (!idx.contains_key(k) || mem[k].1 >= idx[k].1) {
                mem[k]
            } else {
                idx[k]
            },
    )
}

/// Merging a whole table into the index at once, pointwise under the
/// strict-greater policy.
pub open spec fn merge_map(idx: KvMap, m: KvMap) -> KvMap {
    Map::new(
        |k: Seq<char>| idx.contains_key(k) || m.contains_key(k),
        |k: Seq<char>|
            if m.contains_key(k) && (!idx.contains_key(k) || m[k].1 > idx[k].1) {
                m[k]
            } else {
                idx[k]
            },
    )
}

/// Records in strictly ascending key order.
pub open spec fn sorted_by_key(rs: Seq<RecordView>) -> bool {
    forall|i: int, j: int|
        0 <= i < j < rs.len() ==> key_lt(#[trigger] rs[i].key, #[trigger] rs[j].key)
}

/// `rs` lists exactly the entries of `m`, one record per key.
pub open spec fn records_match_map(rs: Seq<RecordView>, m: KvMap) -> bool {
    &&& forall|i: int|
        0 <= i < rs.len() ==> m.contains_key(#[trigger] rs[i].key) && m[rs[i].key] == (
        rs[i].value,
        rs[i].timestamp,
    )
    &&& forall|k: Seq<char>| m.contains_key(k) ==> exists|i: int|
        0 <= i < rs.len() && #[trigger] rs[i].key == k
}

/// Merging the sorted entries of a table one record at a time equals the
/// pointwise merge of the whole table.
pub proof fn lemma_merge_records(idx: KvMap, rs: Seq<RecordView>, m: KvMap)
    requires
        sorted_by_key(rs),
        records_match_map(rs, m),
    ensures
        kv_merge_seq(idx, rs) == merge_map(idx, m),
    decreases rs.len(),
{
    if rs.len() == 0 {
        assert forall|k: Seq<char>| !m.contains_key(k) by {
            if m.contains_key(k) {
                let i = choose|i: int| 0 <= i < rs.len() && #[trigger] rs[i].key == k;
            }
        }
        assert(kv_merge_seq(idx, rs) =~= merge_map(idx, m));
    } else {
        let r0 = rs[0];
        let k0 = r0.key;
        let m2 = m.remove(k0);
        let rest = rs.drop_first();
        assert forall|i: int| 0 <= i < rest.len() implies #[trigger] rest[i].key != k0 by {
            assert(rest[i] == rs[i + 1]);
            assert(key_lt(rs[0].key, rs[i + 1].key));
            lemma_key_lt_ne(rs[0].key, rs[i + 1].key);
        }
        assert(sorted_by_key(rest)) by {
            assert(forall|i: int, j: int|
                0 <= i < j < rest.len() ==> #[trigger] rest[i] == rs[i + 1] && #[trigger] rest[j]
                    == rs[j + 1]);
        }
        assert(records_match_map(rest, m2)) by {
            assert forall|k: Seq<char>| m2.contains_key(k) implies exists|i: int|
                0 <= i < rest.len() && #[trigger] rest[i].key == k by {
                let i = choose|i: int| 0 <= i < rs.len() && #[trigger] rs[i].key == k;
                assert(i != 0);
                assert(rest[i - 1] == rs[i]);
            }
            assert(forall|i: int| 0 <= i < rest.len() ==> #[trigger] rest[i] == rs[i + 1]);
        }
        lemma_merge_records(kv_merge_one(idx, r0), rest, m2);
        assert(kv_merge_seq(idx, rs) == kv_merge_seq(kv_merge_one(idx, r0), rest));
        assert(merge_map(kv_merge_one(idx, r0), m2) =~= merge_map(idx, m)) by {
            assert(m.contains_key(k0) && m[k0] == (r0.value, r0.timestamp));
        }
    }
}

/// The volatile state of an engine: its memtable and its index.
#[verifier::ext_equal]
pub ghost struct EngineModel {
    pub mem: KvMap,
    pub idx: KvMap,
}

/// The map a reader sees in a given engine state.
pub open spec fn model_visible(em: EngineModel) -> KvMap {
    combined(em.mem, em.idx)
}

/// One step of the write protocol: the record is upserted into the
/// memtable; if the table then holds more than `threshold` entries it is
/// flushed — merged into the index and emptied.
pub open spec fn model_set(em: EngineModel, r: RecordView, threshold: nat) -> EngineModel {
    let m1 = kv_upsert(em.mem, r);
    if m1.dom().len() > threshold {
        EngineModel { mem: KvMap::empty(), idx: merge_map(em.idx, m1) }
    } else {
        EngineModel { mem: m1, idx: em.idx }
    }
}

/// The engine state reached by applying a sequence of writes to a fresh
/// engine.
pub open spec fn model_run(ops: Seq<RecordView>, threshold: nat) -> EngineModel
    decreases ops.len(),
{
    if ops.len() == 0 {
        EngineModel { mem: KvMap::empty(), idx: KvMap::empty() }
    } else {
        model_set(model_run(ops.drop_last(), threshold), ops.last(), threshold)
    }
}

/// The memtable state rebuilt by replaying a WAL.
pub open spec fn recovered_mem(wal: Seq<u8>) -> KvMap {
    kv_upsert_seq(Map::empty(), spec_parse_tolerant(wal, 0))
}

/// Whether every SST parses strictly.
pub open spec fn sst_seq_parses(ssts: Seq<Seq<u8>>) -> bool {
    forall|i: int| 0 <= i < ssts.len() ==> spec_parse_records(#[trigger] ssts[i], 0) is Some
}

/// The index rebuilt by merging every SST in ascending sequence order.
pub open spec fn recovered_index(ssts: Seq<Seq<u8>>) -> KvMap
    decreases ssts.len(),
{
    if ssts.len() == 0 {
        Map::empty()
    } else {
        kv_merge_seq(
            recovered_index(ssts.drop_last()),
            spec_parse_records(ssts.last(), 0).unwrap_or(Seq::empty()),
        )
    }
}

} // verus!
