//! The record codec: each record is stored as one self-delimited unit
//! terminated by a newline byte.
//!
//! A unit is `klen (8 bytes LE) | vlen (8 bytes LE) | timestamp (16 bytes
//! LE) | key bytes (UTF-8) | value bytes (UTF-8) | b'\n'`.  Length prefixes
//! make the encoding lossless for values that themselves contain newlines.
//! WAL replay tolerates a truncated trailing unit by dropping it; SST
//! scanning fails hard on any malformed unit.

use vstd::prelude::*;

use vstd::bytes::{
    spec_u128_from_le_bytes, spec_u128_to_le_bytes, spec_u64_from_le_bytes, spec_u64_to_le_bytes,
    u128_from_le_bytes, u128_to_le_bytes, u64_from_le_bytes, u64_to_le_bytes,
};
use vstd::slice::{slice_subrange, slice_to_vec};
use vstd::string::StrSliceExecFns;
use vstd::utf8::{decode_utf8, encode_utf8, valid_utf8};

use crate::record::{Record, RecordView};

verus! {

/// The byte that terminates every encoded record.
pub const RECORD_TERMINATOR: u8 = 10;

/// Bytes taken by the two length prefixes and the timestamp.
pub const HEADER_LEN: usize = 32;

/// Bytes of the smallest possible unit: a header plus the terminator.
pub const MIN_UNIT_LEN: usize = 33;

/// The views of a sequence of records.
pub open spec fn record_views(s: Seq<Record>) -> Seq<RecordView> {
    s.map_values(|r: Record| r@)
}

/// Whether a record's key and value are short enough for their UTF-8 byte
/// lengths to fit in the 64-bit length prefixes.  Every record held in
/// memory satisfies this.
pub open spec fn encodable(r: RecordView) -> bool {
    &&& encode_utf8(r.key).len() <= u64::MAX
    &&& encode_utf8(r.value).len() <= u64::MAX
}

pub open spec fn all_encodable(rs: Seq<RecordView>) -> bool {
    forall|i: int| 0 <= i < rs.len() ==> encodable(#[trigger] rs[i])
}

/// The encoding of one record.
pub open spec fn spec_encode_record(r: RecordView) -> Seq<u8> {
    let kb = encode_utf8(r.key);
    let vb = encode_utf8(r.value);
    spec_u64_to_le_bytes(kb.len() as u64) + spec_u64_to_le_bytes(vb.len() as u64)
        + spec_u128_to_le_bytes(r.timestamp) + kb + vb + seq![RECORD_TERMINATOR]
}

/// The concatenation of the encodings of a sequence of records: the byte
/// contents of a log file holding exactly those records.
pub open spec fn spec_encode_records(rs: Seq<RecordView>) -> Seq<u8>
    decreases rs.len(),
{
    if rs.len() == 0 {
        Seq::empty()
    } else {
        spec_encode_record(rs[0]) + spec_encode_records(rs.drop_first())
    }
}

/// Decoding of the single unit that starts at `pos` in `b`.  Returns the
/// record together with the position just past its terminator, or `None`
/// if the unit is truncated or malformed.
pub open spec fn spec_decode_record_at(b: Seq<u8>, pos: int) -> Option<(RecordView, int)> {
    if pos < 0 || pos + MIN_UNIT_LEN > b.len() {
        None
    } else {
        let klen = spec_u64_from_le_bytes(b.subrange(pos, pos + 8)) as int;
        let vlen = spec_u64_from_le_bytes(b.subrange(pos + 8, pos + 16)) as int;
        let ts = spec_u128_from_le_bytes(b.subrange(pos + 16, pos + 32));
        if pos + MIN_UNIT_LEN + klen + vlen > b.len() {
            None
        } else {
            let kb = b.subrange(pos + 32, pos + 32 + klen);
            let vb = b.subrange(pos + 32 + klen, pos + 32 + klen + vlen);
            if valid_utf8(kb) && valid_utf8(vb) && b[pos + 32 + klen + vlen]
                == RECORD_TERMINATOR {
                Some(
                    (
                        RecordView {
                            key: decode_utf8(kb),
                            value: decode_utf8(vb),
                            timestamp: ts,
                        },
                        pos + 33 + klen + vlen,
                    ),
                )
            } else {
                None
            }
        }
    }
}

/// Strict parse of everything from `pos` to the end of `b`: the whole
/// suffix must consist of well-formed units.  This is how SSTs are read.
pub open spec fn spec_parse_records(b: Seq<u8>, pos: int) -> Option<Seq<RecordView>>
    decreases b.len() - pos,
    when 0 <= pos <= b.len()
{
    if pos == b.len() {
        Some(Seq::empty())
    } else {
        match spec_decode_record_at(b, pos) {
            None => None,
            Some((r, p2)) => if pos < p2 <= b.len() {
                match spec_parse_records(b, p2) {
                    None => None,
                    Some(rest) => Some(seq![r] + rest),
                }
            } else {
                None
            },
        }
    }
}

/// Tolerant parse from `pos`: yields units until the first malformed or
/// truncated one and drops the rest.  This is how the WAL is replayed.
pub open spec fn spec_parse_tolerant(b: Seq<u8>, pos: int) -> Seq<RecordView>
    decreases b.len() - pos,
    when 0 <= pos <= b.len()
{
    if pos == b.len() {
        Seq::empty()
    } else {
        match spec_decode_record_at(b, pos) {
            None => Seq::empty(),
            Some((r, p2)) => if pos < p2 <= b.len() {
                seq![r] + spec_parse_tolerant(b, p2)
            } else {
                Seq::empty()
            },
        }
    }
}

/// Serializes one record.
pub fn encode_record(r: &Record) -> (out: Vec<u8>)
    ensures
        out@ == spec_encode_record(r@),
        encodable(r@),
{
    proof {
        vstd::bytes::lemma_auto_spec_u64_to_from_le_bytes();
        vstd::bytes::lemma_auto_spec_u128_to_from_le_bytes();
    }
    let kb = r.key.as_str().as_bytes_vec();
    let vb = r.value.as_str().as_bytes_vec();
    let mut out = u64_to_le_bytes(kb.len() as u64);
    let mut part = u64_to_le_bytes(vb.len() as u64);
    out.append(&mut part);
    let mut ts_part = u128_to_le_bytes(r.timestamp);
    out.append(&mut ts_part);
    let mut kb_part = kb;
    out.append(&mut kb_part);
    let mut vb_part = vb;
    out.append(&mut vb_part);
    out.push(RECORD_TERMINATOR);
    assert(out@ =~= spec_encode_record(r@));
    out
}

/// Serializes a sequence of records back to back.
pub fn encode_records(rs: &Vec<Record>) -> (out: Vec<u8>)
    ensures
        out@ == spec_encode_records(record_views(rs@)),
        all_encodable(record_views(rs@)),
{
    let mut out: Vec<u8> = Vec::new();
    let mut i: usize = 0;
    while i < rs.len()
        invariant
            i <= rs.len(),
            out@ == spec_encode_records(record_views(rs@.take(i as int))),
            all_encodable(record_views(rs@.take(i as int))),
        decreases rs.len() - i,
    {
        let mut part = encode_record(&rs[i]);
        proof {
            lemma_encode_records_push(record_views(rs@.take(i as int)), rs@[i as int]@);
            assert(record_views(rs@.take(i as int)).push(rs@[i as int]@) =~= record_views(
                rs@.take(i + 1),
            ));
        }
        out.append(&mut part);
        i = i + 1;
    }
    proof {
        assert(rs@.take(rs@.len() as int) =~= rs@);
    }
    out
}

/// Appending one more record to a sequence appends its encoding to the
/// encoded bytes.
pub proof fn lemma_encode_records_push(rs: Seq<RecordView>, r: RecordView)
    ensures
        spec_encode_records(rs.push(r)) == spec_encode_records(rs) + spec_encode_record(r),
    decreases rs.len(),
{
    if rs.len() == 0 {
        assert(rs.push(r)[0] == r);
        assert(rs.push(r).drop_first() =~= Seq::<RecordView>::empty());
        assert(spec_encode_records(Seq::<RecordView>::empty()) == Seq::<u8>::empty());
        assert(spec_encode_records(rs.push(r)) == spec_encode_record(r) + Seq::<u8>::empty());
        assert(spec_encode_records(rs.push(r)) =~= spec_encode_record(r));
        assert(spec_encode_records(rs) == Seq::<u8>::empty());
        assert(spec_encode_records(rs) + spec_encode_record(r) =~= spec_encode_record(r));
    } else {
        assert(rs.push(r)[0] == rs[0]);
        assert(rs.push(r).drop_first() =~= rs.drop_first().push(r));
        lemma_encode_records_push(rs.drop_first(), r);
        assert(spec_encode_records(rs.push(r)) == spec_encode_record(rs[0]) + (spec_encode_records(
            rs.drop_first(),
        ) + spec_encode_record(r)));
        assert(spec_encode_record(rs[0]) + (spec_encode_records(rs.drop_first())
            + spec_encode_record(r)) =~= (spec_encode_record(rs[0]) + spec_encode_records(
            rs.drop_first(),
        )) + spec_encode_record(r));
    }
}

/// Decoding starts again exactly where a well-formed unit ends: if the
/// bytes from `pos` onward start with the encoding of `r`, decoding at
/// `pos` yields `r` and stops just past its terminator.
pub proof fn lemma_decode_of_encode_at(b: Seq<u8>, pos: int, r: RecordView)
    requires
        encodable(r),
        0 <= pos,
        pos + spec_encode_record(r).len() <= b.len(),
        b.subrange(pos, pos + spec_encode_record(r).len()) == spec_encode_record(r),
    ensures
        spec_decode_record_at(b, pos) == Some((r, pos + spec_encode_record(r).len())),
{
    vstd::bytes::lemma_auto_spec_u64_to_from_le_bytes();
    vstd::bytes::lemma_auto_spec_u128_to_from_le_bytes();
    broadcast use vstd::utf8::encode_utf8_valid_utf8;
    broadcast use vstd::utf8::encode_utf8_decode_utf8;

    let kb = encode_utf8(r.key);
    let vb = encode_utf8(r.value);
    let klen = kb.len() as int;
    let vlen = vb.len() as int;
    let ka = spec_u64_to_le_bytes(kb.len() as u64);
    let va = spec_u64_to_le_bytes(vb.len() as u64);
    let ta = spec_u128_to_le_bytes(r.timestamp);
    let term = seq![RECORD_TERMINATOR];
    let enc = spec_encode_record(r);
    let el = enc.len();
    assert(enc == ka + va + ta + kb + vb + term);
    assert(ka.len() == 8 && va.len() == 8 && ta.len() == 16);
    assert(el == 33 + klen + vlen);
    assert(forall|i: int| 0 <= i < el ==> b[pos + i] == enc[i]) by {
        assert(forall|i: int|
            0 <= i < el ==> b[pos + i] == #[trigger] b.subrange(pos, pos + el)[i]);
    }
    assert forall|j: int| 0 <= j < 8 implies b[pos + j] == ka[j] by {
        assert(enc[j] == ka[j]);
    }
    assert forall|j: int| 0 <= j < 8 implies b[pos + 8 + j] == va[j] by {
        assert(enc[8 + j] == va[j]);
    }
    assert forall|j: int| 0 <= j < 16 implies b[pos + 16 + j] == ta[j] by {
        assert(enc[16 + j] == ta[j]);
    }
    assert forall|j: int| 0 <= j < klen implies b[pos + 32 + j] == kb[j] by {
        assert(enc[32 + j] == kb[j]);
    }
    assert forall|j: int| 0 <= j < vlen implies b[pos + 32 + klen + j] == vb[j] by {
        assert(enc[32 + klen + j] == vb[j]);
    }
    assert(b.subrange(pos, pos + 8) =~= ka);
    assert(b.subrange(pos + 8, pos + 16) =~= va);
    assert(b.subrange(pos + 16, pos + 32) =~= ta);
    assert(spec_u64_from_le_bytes(b.subrange(pos, pos + 8)) == klen);
    assert(spec_u64_from_le_bytes(b.subrange(pos + 8, pos + 16)) == vlen);
    assert(spec_u128_from_le_bytes(b.subrange(pos + 16, pos + 32)) == r.timestamp);
    assert(b.subrange(pos + 32, pos + 32 + klen) =~= kb);
    assert(b.subrange(pos + 32 + klen, pos + 32 + klen + vlen) =~= vb);
    assert(b[pos + 32 + klen + vlen] == enc[32 + klen + vlen]);
    assert(enc[32 + klen + vlen] == term[0]);
    assert(decode_utf8(kb) == r.key);
    assert(decode_utf8(vb) == r.value);
}

/// The codec is unambiguous: a unit that decodes successfully occupies
/// exactly the bytes that re-encoding the record would produce.
pub proof fn lemma_encode_of_decode_at(b: Seq<u8>, pos: int)
    requires
        spec_decode_record_at(b, pos) is Some,
    ensures
        ({
            let (r, p2) = spec_decode_record_at(b, pos).unwrap();
            &&& encodable(r)
            &&& pos < p2 <= b.len()
            &&& p2 - pos == spec_encode_record(r).len()
            &&& b.subrange(pos, p2) == spec_encode_record(r)
        }),
{
    vstd::bytes::lemma_auto_spec_u64_to_from_le_bytes();
    vstd::bytes::lemma_auto_spec_u128_to_from_le_bytes();
    let (r, p2) = spec_decode_record_at(b, pos).unwrap();
    let klen = spec_u64_from_le_bytes(b.subrange(pos, pos + 8)) as int;
    let vlen = spec_u64_from_le_bytes(b.subrange(pos + 8, pos + 16)) as int;
    let kb = b.subrange(pos + 32, pos + 32 + klen);
    let vb = b.subrange(pos + 32 + klen, pos + 32 + klen + vlen);
    assert(valid_utf8(kb) && valid_utf8(vb));
    assert(encode_utf8(r.key) == kb && encode_utf8(r.value) == vb) by {
        vstd::utf8::decode_utf8_encode_utf8(kb);
        vstd::utf8::decode_utf8_encode_utf8(vb);
    }
    assert(spec_u64_to_le_bytes(klen as u64) =~= b.subrange(pos, pos + 8)) by {
        assert(spec_u64_to_le_bytes(spec_u64_from_le_bytes(b.subrange(pos, pos + 8)))
            == b.subrange(pos, pos + 8));
    }
    assert(spec_u64_to_le_bytes(vlen as u64) =~= b.subrange(pos + 8, pos + 16)) by {
        assert(spec_u64_to_le_bytes(spec_u64_from_le_bytes(b.subrange(pos + 8, pos + 16)))
            == b.subrange(pos + 8, pos + 16));
    }
    assert(spec_u128_to_le_bytes(r.timestamp) =~= b.subrange(pos + 16, pos + 32)) by {
        assert(spec_u128_to_le_bytes(spec_u128_from_le_bytes(b.subrange(pos + 16, pos + 32)))
            == b.subrange(pos + 16, pos + 32));
    }
    assert(b.subrange(pos, p2) =~= spec_encode_record(r));
}

/// A buffer that holds exactly the encodings of `rs`, from `pos` to its
/// end, parses strictly to `rs`.
pub proof fn lemma_parse_of_encoded(rs: Seq<RecordView>, b: Seq<u8>, pos: int)
    requires
        all_encodable(rs),
        0 <= pos <= b.len(),
        b.subrange(pos, b.len() as int) == spec_encode_records(rs),
    ensures
        spec_parse_records(b, pos) == Some(rs),
    decreases rs.len(),
{
    if rs.len() == 0 {
        assert(b.len() - pos == 0);
        assert(spec_parse_records(b, pos) == Some(Seq::<RecordView>::empty()));
        assert(Seq::<RecordView>::empty() =~= rs);
    } else {
        let enc0 = spec_encode_record(rs[0]);
        let el = enc0.len();
        let rest = spec_encode_records(rs.drop_first());
        assert(spec_encode_records(rs) == enc0 + rest);
        assert(b.len() - pos == el + rest.len());
        assert(forall|i: int| 0 <= i < el + rest.len() ==> b[pos + i] == (enc0 + rest)[i]) by {
            assert(forall|i: int|
                0 <= i < el + rest.len() ==> b[pos + i] == #[trigger] b.subrange(
                    pos,
                    b.len() as int,
                )[i]);
        }
        assert forall|j: int| 0 <= j < el implies b[pos + j] == enc0[j] by {
            assert((enc0 + rest)[j] == enc0[j]);
        }
        assert(b.subrange(pos, pos + el) =~= enc0);
        assert(encodable(rs[0]));
        lemma_decode_of_encode_at(b, pos, rs[0]);
        assert forall|j: int| 0 <= j < rest.len() implies b[pos + el + j] == rest[j] by {
            assert((enc0 + rest)[el + j] == rest[j]);
        }
        assert(b.subrange(pos + el, b.len() as int) =~= rest);
        assert(all_encodable(rs.drop_first())) by {
            assert(forall|i: int|
                0 <= i < rs.drop_first().len() ==> #[trigger] rs.drop_first()[i] == rs[i + 1]);
        }
        lemma_parse_of_encoded(rs.drop_first(), b, pos + el);
        assert(el >= 33);
        assert(spec_parse_records(b, pos) == Some(seq![rs[0]] + rs.drop_first()));
        assert(seq![rs[0]] + rs.drop_first() =~= rs);
    }
}

/// Strict parsing inverts encoding: a buffer that parses to `rs` holds
/// exactly the encodings of `rs`.
pub proof fn lemma_encoded_of_parse(b: Seq<u8>, pos: int)
    requires
        0 <= pos <= b.len(),
        spec_parse_records(b, pos) is Some,
    ensures
        ({
            let rs = spec_parse_records(b, pos).unwrap();
            &&& all_encodable(rs)
            &&& b.subrange(pos, b.len() as int) == spec_encode_records(rs)
        }),
    decreases b.len() - pos,
{
    let rs = spec_parse_records(b, pos).unwrap();
    if pos == b.len() {
        assert(b.subrange(pos, b.len() as int) =~= Seq::<u8>::empty());
    } else {
        let (r, p2) = spec_decode_record_at(b, pos).unwrap();
        lemma_encode_of_decode_at(b, pos);
        lemma_encoded_of_parse(b, p2);
        let tail = spec_parse_records(b, p2).unwrap();
        assert(rs == seq![r] + tail);
        assert(rs[0] == r);
        assert(rs.drop_first() =~= tail);
        assert(all_encodable(rs)) by {
            assert(forall|i: int| 0 < i < rs.len() ==> rs[i] == tail[i - 1]);
        }
        assert(b.subrange(pos, b.len() as int) =~= b.subrange(pos, p2) + b.subrange(
            p2,
            b.len() as int,
        ));
        assert(spec_encode_records(rs) == spec_encode_record(r) + spec_encode_records(tail)) by {
            assert(spec_encode_records(rs.drop_first()) == spec_encode_records(tail));
        }
    }
}

/// Where strict parsing succeeds, tolerant parsing agrees with it.
pub proof fn lemma_tolerant_of_strict(b: Seq<u8>, pos: int)
    requires
        0 <= pos <= b.len(),
        spec_parse_records(b, pos) is Some,
    ensures
        spec_parse_tolerant(b, pos) == spec_parse_records(b, pos).unwrap(),
    decreases b.len() - pos,
{
    if pos == b.len() {
    } else {
        let (r, p2) = spec_decode_record_at(b, pos).unwrap();
        lemma_encode_of_decode_at(b, pos);
        lemma_tolerant_of_strict(b, p2);
    }
}

/// Appending the encoding of one more record to a well-formed buffer
/// appends that record to its strict parse.
pub proof fn lemma_parse_append(b: Seq<u8>, r: RecordView)
    requires
        spec_parse_records(b, 0) is Some,
        encodable(r),
    ensures
        spec_parse_records(b + spec_encode_record(r), 0) == Some(
            spec_parse_records(b, 0).unwrap().push(r),
        ),
{
    let rs = spec_parse_records(b, 0).unwrap();
    lemma_encoded_of_parse(b, 0);
    assert(b.subrange(0, b.len() as int) =~= b);
    lemma_encode_records_push(rs, r);
    let b2 = b + spec_encode_record(r);
    assert(b2 =~= spec_encode_records(rs.push(r)));
    assert(all_encodable(rs.push(r))) by {
        assert(forall|i: int| 0 <= i < rs.len() ==> rs.push(r)[i] == rs[i]);
        assert(rs.push(r)[rs.len() as int] == r);
    }
    assert(b2.subrange(0, b2.len() as int) =~= b2);
    lemma_parse_of_encoded(rs.push(r), b2, 0);
}

/// Relies on `String::from_utf8`: it succeeds exactly on valid UTF-8 input
/// and returns the string those bytes encode.
#[verifier::external_body]
pub(crate) fn string_from_utf8(bytes: Vec<u8>) -> (r: Option<String>)
    ensures
        r is Some <==> valid_utf8(bytes@),
        r matches Some(s) ==> s@ == decode_utf8(bytes@),
{
    String::from_utf8(bytes).ok()
}

/// Deserializes the unit that starts at `pos`, returning the record and the
/// position just past its terminator.
pub fn decode_record_at(b: &Vec<u8>, pos: usize) -> (r: Option<(Record, usize)>)
    ensures
        match r {
            Some(p) => spec_decode_record_at(b@, pos as int) == Some((p.0@, p.1 as int))
                && pos < p.1 <= b.len(),
            None => spec_decode_record_at(b@, pos as int) is None,
        },
{
    proof {
        vstd::bytes::lemma_auto_spec_u64_to_from_le_bytes();
        vstd::bytes::lemma_auto_spec_u128_to_from_le_bytes();
    }
    if b.len() < MIN_UNIT_LEN || pos > b.len() - MIN_UNIT_LEN {
        return None;
    }
    let klen64 = u64_from_le_bytes(slice_subrange(b.as_slice(), pos, pos + 8));
    let vlen64 = u64_from_le_bytes(slice_subrange(b.as_slice(), pos + 8, pos + 16));
    let ts = u128_from_le_bytes(slice_subrange(b.as_slice(), pos + 16, pos + 32));
    let rem = (b.len() - pos - MIN_UNIT_LEN) as u64;
    if klen64 > rem || vlen64 > rem - klen64 {
        return None;
    }
    let klen = klen64 as usize;
    let vlen = vlen64 as usize;
    let key_start = pos + HEADER_LEN;
    let val_start = key_start + klen;
    let term_at = val_start + vlen;
    let kb = slice_to_vec(slice_subrange(b.as_slice(), key_start, val_start));
    let vb = slice_to_vec(slice_subrange(b.as_slice(), val_start, term_at));
    if b[term_at] != RECORD_TERMINATOR {
        return None;
    }
    let key = match string_from_utf8(kb) {
        Some(s) => s,
        None => {
            return None;
        },
    };
    let value = match string_from_utf8(vb) {
        Some(s) => s,
        None => {
            return None;
        },
    };
    Some((Record { key, value, timestamp: ts }, term_at + 1))
}

/// Strict deserialization of a whole buffer, used when scanning an SST:
/// fails if any unit is malformed or if bytes are left over.
pub fn decode_records(b: &Vec<u8>) -> (r: Option<Vec<Record>>)
    ensures
        match r {
            Some(v) => spec_parse_records(b@, 0) == Some(record_views(v@)),
            None => spec_parse_records(b@, 0) is None,
        },
{
    let mut out: Vec<Record> = Vec::new();
    let mut pos: usize = 0;
    loop
        invariant
            pos <= b.len(),
            spec_parse_records(b@, 0) == (match spec_parse_records(b@, pos as int) {
                Some(rest) => Some(record_views(out@) + rest),
                None => None::<Seq<RecordView>>,
            }),
        decreases b.len() - pos,
    {
        if pos == b.len() {
            proof {
                assert(record_views(out@) + Seq::<RecordView>::empty() =~= record_views(out@));
            }
            return Some(out);
        }
        match decode_record_at(b, pos) {
            None => {
                return None;
            },
            Some(p) => {
                let (rec, p2) = p;
                proof {
                    let rest2 = spec_parse_records(b@, p2 as int);
                    if rest2 is Some {
                        assert(record_views(out@) + (seq![rec@] + rest2.unwrap()) =~= record_views(
                            out@.push(rec),
                        ) + rest2.unwrap());
                    }
                }
                out.push(rec);
                pos = p2;
            },
        }
    }
}

/// Tolerant deserialization, used when replaying the WAL: yields units up
/// to the first malformed or truncated one and drops the rest.
pub fn decode_records_tolerant(b: &Vec<u8>) -> (r: Vec<Record>)
    ensures
        record_views(r@) == spec_parse_tolerant(b@, 0),
{
    let mut out: Vec<Record> = Vec::new();
    let mut pos: usize = 0;
    loop
        invariant
            pos <= b.len(),
            spec_parse_tolerant(b@, 0) == record_views(out@) + spec_parse_tolerant(b@, pos as int),
        decreases b.len() - pos,
    {
        if pos == b.len() {
            proof {
                assert(record_views(out@) + Seq::<RecordView>::empty() =~= record_views(out@));
            }
            return out;
        }
        match decode_record_at(b, pos) {
            None => {
                proof {
                    assert(record_views(out@) + Seq::<RecordView>::empty() =~= record_views(out@));
                }
                return out;
            },
            Some(p) => {
                let (rec, p2) = p;
                proof {
                    assert(record_views(out@) + (seq![rec@] + spec_parse_tolerant(b@, p2 as int))
                        =~= record_views(out@.push(rec)) + spec_parse_tolerant(b@, p2 as int));
                }
                out.push(rec);
                pos = p2;
            },
        }
    }
}

} // verus!
