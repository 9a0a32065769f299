//! End-to-end scenarios against the in-memory durable store: writes,
//! last-write-wins reads, flush boundaries, reopen and crash recovery.

use tortoise_datastore::{LsmEngine, Store};

fn open_fresh(threshold: usize) -> LsmEngine {
    LsmEngine::open(Store::new(), threshold).expect("open on an empty store must succeed")
}

fn reopen(engine: LsmEngine, threshold: usize) -> LsmEngine {
    LsmEngine::open(engine.into_store(), threshold).expect("reopen must succeed")
}

#[test]
fn single_write_read() {
    let mut engine = open_fresh(16);
    engine.set("a".to_string(), "1".to_string(), 100).unwrap();
    let rec = engine.get("a".to_string()).expect("key must be present");
    assert_eq!(rec.key, "a");
    assert_eq!(rec.value, "1");
    assert_eq!(rec.timestamp, 100);

    let engine = reopen(engine, 16);
    let rec = engine.get("a".to_string()).expect("key must survive a reopen");
    assert_eq!(rec.value, "1");
    assert_eq!(rec.timestamp, 100);
}

#[test]
fn lww_update() {
    let mut engine = open_fresh(16);
    engine.set("a".to_string(), "1".to_string(), 100).unwrap();
    engine.set("a".to_string(), "2".to_string(), 200).unwrap();
    let rec = engine.get("a".to_string()).unwrap();
    assert_eq!(rec.value, "2");
    assert_eq!(rec.timestamp, 200);

    let mut engine = open_fresh(16);
    engine.set("a".to_string(), "2".to_string(), 200).unwrap();
    engine.set("a".to_string(), "1".to_string(), 100).unwrap();
    let rec = engine.get("a".to_string()).unwrap();
    assert_eq!(rec.value, "2");
    assert_eq!(rec.timestamp, 200);
}

#[test]
fn stale_rejected() {
    let mut engine = open_fresh(16);
    engine.set("a".to_string(), "1".to_string(), 200).unwrap();
    engine.set("a".to_string(), "0".to_string(), 100).unwrap();
    let rec = engine.get("a".to_string()).unwrap();
    assert_eq!(rec.value, "1");
    assert_eq!(rec.timestamp, 200);
}

#[test]
fn equal_timestamps_favour_newer_write() {
    let mut engine = open_fresh(16);
    engine.set("a".to_string(), "first".to_string(), 100).unwrap();
    engine.set("a".to_string(), "second".to_string(), 100).unwrap();
    let rec = engine.get("a".to_string()).unwrap();
    assert_eq!(rec.value, "second");
}

#[test]
fn flush_boundary() {
    let mut engine = open_fresh(2);
    engine.set("a".to_string(), "1".to_string(), 1).unwrap();
    engine.set("b".to_string(), "2".to_string(), 2).unwrap();
    engine.set("c".to_string(), "3".to_string(), 3).unwrap();
    assert!(engine.num_ssts() >= 1, "the third write must have crossed the threshold");
    assert_eq!(engine.get("a".to_string()).unwrap().value, "1");
    assert_eq!(engine.get("b".to_string()).unwrap().value, "2");
    assert_eq!(engine.get("c".to_string()).unwrap().value, "3");

    let engine = reopen(engine, 2);
    assert_eq!(engine.get("a".to_string()).unwrap().value, "1");
    assert_eq!(engine.get("b".to_string()).unwrap().value, "2");
    assert_eq!(engine.get("c".to_string()).unwrap().value, "3");
}

#[test]
fn threshold_crossing_loses_nothing() {
    // Threshold 5, 10 distinct keys: the writes straddle at least one
    // flush and every record stays readable, before and after reopen.
    let mut engine = open_fresh(5);
    for i in 0..10u32 {
        engine
            .set(format!("key{:02}", i), format!("val{}", i), u128::from(i))
            .unwrap();
    }
    assert!(engine.num_ssts() >= 1);
    for i in 0..10u32 {
        let rec = engine.get(format!("key{:02}", i)).unwrap();
        assert_eq!(rec.value, format!("val{}", i));
    }
    let engine = reopen(engine, 5);
    for i in 0..10u32 {
        let rec = engine.get(format!("key{:02}", i)).unwrap();
        assert_eq!(rec.value, format!("val{}", i));
    }
}

#[test]
fn crash_recovery_overlapping_wal_and_sst() {
    // A crash between SST rename and WAL truncation leaves the same
    // records both in the new SST and in the WAL.  Build that store by
    // snapshotting just before the flush and grafting on the SST the
    // flush would have written.
    let mut engine = open_fresh(5);
    for i in 0..5u32 {
        engine
            .set(format!("k{}", i), format!("v{}", i), u128::from(i) + 1)
            .unwrap();
    }
    assert_eq!(engine.num_ssts(), 0, "no flush yet at the threshold itself");
    let mut crashed = engine.snapshot_store();

    // One more write triggers the flush; its SST holds all six records.
    engine.set("k5".to_string(), "v5".to_string(), 6).unwrap();
    assert_eq!(engine.num_ssts(), 1);
    let flushed = engine.into_store();
    assert!(flushed.wal.is_empty(), "the completed flush truncated the WAL");

    // The crashed store: the SST is visible, the WAL was never truncated,
    // and it also replays the sixth record's append.
    crashed
        .wal
        .extend_from_slice(&tortoise_datastore::codec::encode_record(
            &tortoise_datastore::Record {
                key: "k5".to_string(),
                value: "v5".to_string(),
                timestamp: 6,
            },
        ));
    crashed.ssts = flushed.ssts;

    let recovered = LsmEngine::open(crashed, 5).unwrap();
    for i in 0..6u32 {
        let rec = recovered.get(format!("k{}", i)).unwrap();
        assert_eq!(rec.value, format!("v{}", i));
        assert_eq!(rec.timestamp, u128::from(i) + 1);
    }
}

#[test]
fn crash_before_flush_keeps_wal_records() {
    let mut engine = open_fresh(100);
    for i in 0..10u32 {
        engine
            .set(format!("k{}", i), format!("v{}", i), u128::from(i))
            .unwrap();
    }
    // No flush happened; the WAL alone carries everything.
    assert_eq!(engine.num_ssts(), 0);
    let store = engine.snapshot_store();
    assert!(!store.wal.is_empty());
    let recovered = LsmEngine::open(store, 100).unwrap();
    for i in 0..10u32 {
        assert_eq!(recovered.get(format!("k{}", i)).unwrap().value, format!("v{}", i));
    }
}

#[test]
fn concurrent_style_writes_same_key() {
    // One hundred writers race on one key with distinct timestamps; in
    // whatever order they landed, the highest timestamp wins.
    let mut engine = open_fresh(8);
    // Interleave the order: evens ascending, then odds descending.
    for i in (0..100u32).step_by(2) {
        engine.set("k".to_string(), i.to_string(), u128::from(i)).unwrap();
    }
    for i in (1..100u32).rev().step_by(2) {
        engine.set("k".to_string(), i.to_string(), u128::from(i)).unwrap();
    }
    let rec = engine.get("k".to_string()).unwrap();
    assert_eq!(rec.timestamp, 99);
    assert_eq!(rec.value, "99");
}

#[test]
fn equal_timestamp_across_flush_keeps_flushed_value() {
    // The index merges strictly last-write-wins, so once a record is
    // flushed, a later write with the very same timestamp does not
    // replace it after the next flush.  This is why the ordering laws
    // ask for distinct per-key timestamps.
    let mut engine = open_fresh(0);
    engine.set("a".to_string(), "first".to_string(), 100).unwrap();
    assert_eq!(engine.num_ssts(), 1);
    engine.set("a".to_string(), "second".to_string(), 100).unwrap();
    assert_eq!(engine.num_ssts(), 2);
    assert_eq!(engine.get("a".to_string()).unwrap().value, "first");
}

#[test]
fn missing_key_reads_none() {
    let engine = open_fresh(4);
    assert!(engine.get("absent".to_string()).is_none());
}

#[test]
fn corrupt_sst_refuses_open() {
    let mut store = Store::new();
    store.ssts.push(b"not a valid record unit".to_vec());
    match LsmEngine::open(store, 4) {
        Err(e) => assert_eq!(e, tortoise_datastore::DatastoreError::Recovery),
        Ok(_) => panic!("a corrupt SST must refuse the open"),
    }
}

#[test]
fn truncated_wal_tail_is_dropped() {
    let mut engine = open_fresh(100);
    engine.set("a".to_string(), "1".to_string(), 1).unwrap();
    engine.set("b".to_string(), "2".to_string(), 2).unwrap();
    let mut store = engine.into_store();
    // Cut the last record's unit in half: a crash mid-append.
    let cut = store.wal.len() - 10;
    store.wal.truncate(cut);
    let recovered = LsmEngine::open(store, 100).unwrap();
    assert_eq!(recovered.get("a".to_string()).unwrap().value, "1");
    assert!(recovered.get("b".to_string()).is_none());
}

#[test]
fn sst_numbering_is_contiguous() {
    let mut engine = open_fresh(1);
    for i in 0..6u32 {
        engine
            .set(format!("k{}", i), i.to_string(), u128::from(i))
            .unwrap();
    }
    let n = engine.num_ssts();
    assert!(n >= 2);
    // Numbers 1..=n and nothing else: position i holds SST i + 1.
    let store = engine.into_store();
    assert_eq!(store.ssts.len(), n);
}
