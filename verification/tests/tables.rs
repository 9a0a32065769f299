//! The memtable and the index as standalone tables: upsert policy, merge
//! policy, ordering of drained entries.

use tortoise_datastore::probe::{make_probe_value, probe_response_from_value};
use tortoise_datastore::{
    DatastoreError, Index, MemTable, MemTableEntry, MemTableOperation, ProbePayload, Record,
};

fn entry(key: &str, value: &str, timestamp: u128) -> MemTableEntry {
    MemTableEntry { key: key.to_string(), value: value.to_string(), timestamp }
}

fn record(key: &str, value: &str, timestamp: u128) -> Record {
    Record { key: key.to_string(), value: value.to_string(), timestamp }
}

#[test]
fn memtable_upsert_policy() {
    let mut t = MemTable::new();
    assert_eq!(t.set(entry("123", "456", 12345678)), MemTableOperation::INSERTED);
    assert_eq!(t.set(entry("12", "789", 12345678)), MemTableOperation::INSERTED);
    assert_eq!(t.set(entry("12PE", "7812A9", 12345678)), MemTableOperation::INSERTED);
    // Same key, equal timestamp: replaced.
    assert_eq!(t.set(entry("123", "46", 12345678)), MemTableOperation::UPDATED);
    // Same key, older timestamp: rejected.
    assert_eq!(t.set(entry("123", "46", 123)), MemTableOperation::NONE);
    assert_eq!(t.len(), 3);

    let v = t.get("123".to_string()).unwrap();
    assert_eq!(v.value, "46");
    assert_eq!(v.timestamp, 12345678);
    let v = t.get("12".to_string()).unwrap();
    assert_eq!(v.value, "789");
    assert!(t.get("ABCD".to_string()).is_none());
}

#[test]
fn memtable_clear_empties() {
    let mut t = MemTable::new();
    t.set(entry("a", "1", 1));
    t.set(entry("b", "2", 2));
    assert_eq!(t.len(), 2);
    t.clear();
    assert_eq!(t.len(), 0);
    assert!(t.get("a".to_string()).is_none());
}

#[test]
fn memtable_entries_sorted_by_key() {
    let mut t = MemTable::new();
    t.set(entry("banana", "2", 2));
    t.set(entry("apple", "1", 1));
    t.set(entry("cherry", "3", 3));
    t.set(entry("apricot", "4", 4));
    let entries = t.entries();
    let keys: Vec<&str> = entries.iter().map(|r| r.key.as_str()).collect();
    assert_eq!(keys, vec!["apple", "apricot", "banana", "cherry"]);
}

#[test]
fn index_merge_is_strictly_newer() {
    let mut idx = Index::new();
    idx.set(record("a", "old", 100));
    // Equal timestamp: the stored record stays.
    idx.set(record("a", "tie", 100));
    assert_eq!(idx.get("a".to_string()).unwrap().value, "old");
    // Strictly newer: replaced.
    idx.set(record("a", "new", 101));
    assert_eq!(idx.get("a".to_string()).unwrap().value, "new");
    // Strictly older: rejected.
    idx.set(record("a", "stale", 50));
    assert_eq!(idx.get("a".to_string()).unwrap().value, "new");
    assert_eq!(idx.len(), 1);
}

#[test]
fn index_read_memtable_merges_all() {
    let mut idx = Index::new();
    idx.set(record("a", "from-sst", 10));
    let mut t = MemTable::new();
    t.set(entry("a", "newer", 20));
    t.set(entry("b", "fresh", 5));
    idx.read_memtable(&t);
    assert_eq!(idx.len(), 2);
    assert_eq!(idx.get("a".to_string()).unwrap().value, "newer");
    assert_eq!(idx.get("b".to_string()).unwrap().value, "fresh");
}

#[test]
fn error_messages() {
    assert_eq!(DatastoreError::Io.message(), "IO error");
    assert_eq!(DatastoreError::Codec.message(), "Parsing error");
    assert_eq!(DatastoreError::Recovery.message(), "Recovery error");
}

#[test]
fn probe_envelopes_carry_fields_through() {
    let payload = ProbePayload {
        probeId: "p1".to_string(),
        eventId: "e0".to_string(),
        messageType: "telemetry".to_string(),
        eventTransmissionTime: 777,
        messageData: Vec::new(),
    };
    let value = make_probe_value("e1".to_string(), payload, 555);
    assert_eq!(value.eventId, "e1");
    assert_eq!(value.messageType, "telemetry");
    assert_eq!(value.eventReceivedTime, 555);
    let resp = probe_response_from_value("p1".to_string(), value, 777);
    assert_eq!(resp.probeId, "p1");
    assert_eq!(resp.eventId, "e1");
    assert_eq!(resp.eventTransmissionTime, 777);
    assert_eq!(resp.eventReceivedTime, 555);
}
