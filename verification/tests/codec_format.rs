//! The record codec and the SST naming scheme, exercised on concrete
//! values.

use tortoise_datastore::codec::{
    decode_record_at, decode_records, decode_records_tolerant, encode_record, encode_records,
};
use tortoise_datastore::sst::{max_sst_seq, parse_sst_file_name, sst_file_name};
use tortoise_datastore::Record;

fn record(key: &str, value: &str, timestamp: u128) -> Record {
    Record { key: key.to_string(), value: value.to_string(), timestamp }
}

#[test]
fn record_round_trip() {
    let r = record("probe-7", "payload", 123456789);
    let bytes = encode_record(&r);
    let (back, used) = decode_record_at(&bytes, 0).expect("own encoding must decode");
    assert_eq!(used, bytes.len());
    assert_eq!(back.key, "probe-7");
    assert_eq!(back.value, "payload");
    assert_eq!(back.timestamp, 123456789);
}

#[test]
fn record_round_trip_with_newlines_and_unicode() {
    let r = record("k\ney", "va\nl\u{00fc}e\u{4e16}", u128::MAX);
    let bytes = encode_record(&r);
    let (back, _) = decode_record_at(&bytes, 0).unwrap();
    assert_eq!(back.key, r.key);
    assert_eq!(back.value, r.value);
    assert_eq!(back.timestamp, u128::MAX);
}

#[test]
fn encoding_is_not_the_raw_input() {
    // The unit carries a header and terminator: decoding depends on the
    // codec actually transforming its input.
    let r = record("a", "b", 7);
    let bytes = encode_record(&r);
    assert_eq!(bytes.len(), 33 + 1 + 1);
    assert_eq!(*bytes.last().unwrap(), b'\n');
    assert_ne!(bytes, b"ab".to_vec());
}

#[test]
fn stream_round_trip() {
    let rs = vec![record("a", "1", 1), record("b", "2", 2), record("c", "3", 3)];
    let bytes = encode_records(&rs);
    let back = decode_records(&bytes).expect("well-formed stream must parse");
    assert_eq!(back.len(), 3);
    assert_eq!(back[1].key, "b");
    assert_eq!(back[2].timestamp, 3);
}

#[test]
fn strict_parse_rejects_trailing_garbage() {
    let rs = vec![record("a", "1", 1)];
    let mut bytes = encode_records(&rs);
    bytes.extend_from_slice(b"tail");
    assert!(decode_records(&bytes).is_none());
}

#[test]
fn tolerant_parse_drops_truncated_tail() {
    let rs = vec![record("a", "1", 1), record("b", "2", 2)];
    let mut bytes = encode_records(&rs);
    let cut = bytes.len() - 5;
    bytes.truncate(cut);
    let back = decode_records_tolerant(&bytes);
    assert_eq!(back.len(), 1);
    assert_eq!(back[0].key, "a");
}

#[test]
fn tolerant_parse_of_garbage_is_empty() {
    let back = decode_records_tolerant(&b"garbage".to_vec());
    assert!(back.is_empty());
}

#[test]
fn sst_names_format_and_parse() {
    assert_eq!(sst_file_name(1), "1.log");
    assert_eq!(sst_file_name(40), "40.log");
    assert_eq!(parse_sst_file_name("7.log"), Some(7));
    assert_eq!(parse_sst_file_name("123.log"), Some(123));
    assert_eq!(parse_sst_file_name(sst_file_name(u64::MAX).as_str()), Some(u64::MAX));
    assert_eq!(parse_sst_file_name("x.log"), None);
    assert_eq!(parse_sst_file_name(".log"), None);
    assert_eq!(parse_sst_file_name("7.txt"), None);
    assert_eq!(parse_sst_file_name("7log"), None);
    assert_eq!(parse_sst_file_name(""), None);
    assert_eq!(parse_sst_file_name("99999999999999999999999.log"), None);
}

#[test]
fn max_sst_seq_scans_a_listing() {
    let names = vec![
        "1.log".to_string(),
        "10.log".to_string(),
        "3.log".to_string(),
        "notes.txt".to_string(),
        "x.log".to_string(),
    ];
    assert_eq!(max_sst_seq(&names), 10);
    assert_eq!(max_sst_seq(&Vec::new()), 0);
}
