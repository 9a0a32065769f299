//! SST naming and discovery.
//!
//! SSTs are numbered monotonically from 1 and live in files named
//! `<n>.log`.  This module formats and parses those names and computes,
//! from a directory listing, the highest sequence number in use — the
//! number recovery continues from.

use vstd::prelude::*;

use vstd::utf8::{
    decode_utf8, encode_utf8, is_leading_byte_width_1, partial_valid_utf8,
    partial_valid_utf8_extend_ascii_block, valid_utf8,
};

verus! {

/// The decimal ASCII digits of `n`, most significant first.
pub open spec fn dec_digits(n: nat) -> Seq<u8>
    decreases n,
{
    if n < 10 {
        seq![(48 + n) as u8]
    } else {
        dec_digits(n / 10).push((48 + n % 10) as u8)
    }
}

/// Whether every byte is a decimal ASCII digit.
pub open spec fn all_digits(s: Seq<u8>) -> bool {
    forall|i: int| 0 <= i < s.len() ==> 48 <= #[trigger] s[i] <= 57
}

/// The number a sequence of decimal digits denotes.
pub open spec fn digits_value(s: Seq<u8>) -> nat
    decreases s.len(),
{
    if s.len() == 0 {
        0
    } else {
        digits_value(s.drop_last()) * 10 + (s.last() - 48) as nat
    }
}

/// The bytes of `<n>.log`.
pub open spec fn sst_name_bytes(n: nat) -> Seq<u8> {
    dec_digits(n) + seq![46u8, 108u8, 111u8, 103u8]
}

/// What a directory entry named by these bytes means: `Some(n)` for a
/// well-formed `<n>.log` whose number fits in 64 bits, `None` for
/// anything else.
pub open spec fn spec_parse_sst_name(s: Seq<u8>) -> Option<u64> {
    let dl = s.len() - 4;
    if s.len() >= 5 && s.subrange(dl, s.len() as int) == seq![46u8, 108u8, 111u8, 103u8]
        && all_digits(s.subrange(0, dl)) && digits_value(s.subrange(0, dl)) <= u64::MAX {
        Some(digits_value(s.subrange(0, dl)) as u64)
    } else {
        None
    }
}

pub proof fn lemma_dec_digits_are_digits(n: nat)
    ensures
        all_digits(dec_digits(n)),
        dec_digits(n).len() >= 1,
    decreases n,
{
    if n >= 10 {
        lemma_dec_digits_are_digits(n / 10);
        assert forall|i: int| 0 <= i < dec_digits(n).len() implies 48 <= #[trigger] dec_digits(
            n,
        )[i] <= 57 by {
            if i < dec_digits(n / 10).len() {
                assert(dec_digits(n)[i] == dec_digits(n / 10)[i]);
            }
        }
    }
}

/// Reading back the digits of `n` yields `n`.
pub proof fn lemma_digits_value_of_dec_digits(n: nat)
    ensures
        digits_value(dec_digits(n)) == n,
    decreases n,
{
    if n < 10 {
        assert(dec_digits(n).drop_last() =~= Seq::<u8>::empty());
        assert(dec_digits(n).last() == (48 + n) as u8);
        assert(digits_value(Seq::<u8>::empty()) == 0);
    } else {
        lemma_digits_value_of_dec_digits(n / 10);
        assert(dec_digits(n).drop_last() =~= dec_digits(n / 10));
        assert(dec_digits(n).last() == (48 + n % 10) as u8);
        assert(digits_value(dec_digits(n)) == (n / 10) * 10 + n % 10);
        assert(n / 10 * 10 + n % 10 == n) by (nonlinear_arith);
    }
}

/// Formats `n` in decimal.
pub fn format_u64(n: u64) -> (r: Vec<u8>)
    ensures
        r@ == dec_digits(n as nat),
    decreases n,
{
    if n < 10 {
        let mut v: Vec<u8> = Vec::new();
        v.push(48 + n as u8);
        proof {
            assert(v@ =~= dec_digits(n as nat));
        }
        v
    } else {
        let mut v = format_u64(n / 10);
        v.push(48 + (n % 10) as u8);
        v
    }
}

/// A digit string's value only grows as more digits follow.
proof fn lemma_digits_value_prefix_le(s: Seq<u8>, j: int)
    requires
        0 <= j <= s.len(),
    ensures
        digits_value(s.take(j)) <= digits_value(s),
    decreases s.len() - j,
{
    if j < s.len() {
        lemma_digits_value_prefix_le(s, j + 1);
        assert(s.take(j + 1).drop_last() =~= s.take(j));
        assert(s.take(j + 1).last() == s[j]);
        assert(digits_value(s.take(j)) <= digits_value(s.take(j)) * 10) by (nonlinear_arith);
        assert(digits_value(s.take(j)) <= digits_value(s.take(j + 1)));
    } else {
        assert(s.take(j) =~= s);
    }
}

/// Parses an unsigned decimal number: every byte must be a digit and the
/// value must fit in 64 bits.
pub fn parse_u64(s: &[u8]) -> (r: Option<u64>)
    ensures
        match r {
            Some(v) => s@.len() > 0 && all_digits(s@) && digits_value(s@) <= u64::MAX && v
                == digits_value(s@),
            None => s@.len() == 0 || !all_digits(s@) || digits_value(s@) > u64::MAX,
        },
{
    if s.len() == 0 {
        return None;
    }
    let mut acc: u64 = 0;
    let mut i: usize = 0;
    while i < s.len()
        invariant
            0 < s@.len(),
            i <= s@.len(),
            all_digits(s@.take(i as int)),
            acc == digits_value(s@.take(i as int)),
        decreases s@.len() - i,
    {
        let b = s[i];
        if b < 48 || b > 57 {
            assert(!all_digits(s@)) by {
                assert(s@[i as int] == b);
            }
            return None;
        }
        let d = (b - 48) as u64;
        if acc > (u64::MAX - d) / 10 {
            proof {
                assert(s@.take(i + 1).drop_last() =~= s@.take(i as int));
                assert(s@.take(i + 1).last() == b);
                assert(digits_value(s@.take(i + 1)) > u64::MAX);
                lemma_digits_value_prefix_le(s@, i + 1);
            }
            return None;
        }
        proof {
            assert(s@.take(i + 1).drop_last() =~= s@.take(i as int));
            assert(s@.take(i + 1).last() == b);
            assert forall|k: int| 0 <= k < i + 1 implies 48 <= #[trigger] s@.take(i + 1)[k]
                <= 57 by {
                if k < i {
                    assert(s@.take(i as int)[k] == s@.take(i + 1)[k]);
                }
            }
        }
        acc = acc * 10 + d;
        i = i + 1;
    }
    proof {
        assert(s@.take(s@.len() as int) =~= s@);
    }
    Some(acc)
}

/// Bytes below 128 are their own one-byte UTF-8 encoding.
proof fn lemma_ascii_valid_utf8(s: Seq<u8>)
    requires
        forall|i: int| 0 <= i < s.len() ==> #[trigger] s[i] < 128,
    ensures
        valid_utf8(s),
{
    assert forall|i: int| 0 <= i < s.len() implies is_leading_byte_width_1(#[trigger] s[i]) by {
        let b = s[i];
        assert(b < 128 ==> b & 0b1000_0000 == 0) by (bit_vector);
    }
    assert(partial_valid_utf8(s, 0)) by {
        assert(s.subrange(0, 0) =~= Seq::<u8>::empty());
    }
    partial_valid_utf8_extend_ascii_block(s, 0, s.len() as int);
    assert(s.subrange(0, s.len() as int) =~= s);
}

/// The file name of SST number `n`: `<n>.log`.
pub fn sst_file_name(n: u64) -> (r: String)
    ensures
        encode_utf8(r@) == sst_name_bytes(n as nat),
{
    let mut bytes = format_u64(n);
    bytes.push(46);
    bytes.push(108);
    bytes.push(111);
    bytes.push(103);
    proof {
        assert(bytes@ =~= sst_name_bytes(n as nat));
        lemma_dec_digits_are_digits(n as nat);
        assert forall|i: int| 0 <= i < bytes@.len() implies #[trigger] bytes@[i] < 128 by {
            if i < dec_digits(n as nat).len() {
                assert(bytes@[i] == dec_digits(n as nat)[i]);
            }
        }
        lemma_ascii_valid_utf8(bytes@);
    }
    let ghost gb = bytes@;
    match crate::codec::string_from_utf8(bytes) {
        Some(s) => {
            proof {
                vstd::utf8::decode_utf8_encode_utf8(gb);
            }
            s
        },
        None => {
            // unreachable: the bytes are ASCII
            proof {
                assert(false);
            }
            String::new()
        },
    }
}

/// Parses a directory entry's name: `Some(n)` exactly for well-formed
/// `<n>.log` names.
pub fn parse_sst_file_name(name: &str) -> (r: Option<u64>)
    ensures
        r == spec_parse_sst_name(encode_utf8(name@)),
{
    let bytes = name.as_bytes();
    let n = bytes.len();
    if n < 5 {
        return None;
    }
    if bytes[n - 4] != 46 || bytes[n - 3] != 108 || bytes[n - 2] != 111 || bytes[n - 1] != 103 {
        proof {
            let s = encode_utf8(name@);
            let suffix = s.subrange(s.len() - 4, s.len() as int);
            assert(suffix != seq![46u8, 108u8, 111u8, 103u8]) by {
                if suffix == seq![46u8, 108u8, 111u8, 103u8] {
                    assert(s[s.len() - 4] == suffix[0]);
                    assert(s[s.len() - 3] == suffix[1]);
                    assert(s[s.len() - 2] == suffix[2]);
                    assert(s[s.len() - 1] == suffix[3]);
                }
            }
        }
        return None;
    }
    let digits = vstd::slice::slice_subrange(bytes, 0, n - 4);
    let parsed = parse_u64(digits);
    proof {
        let s = encode_utf8(name@);
        assert(s.subrange(s.len() - 4, s.len() as int) =~= seq![46u8, 108u8, 111u8, 103u8]);
    }
    parsed
}

/// For every number, formatting then parsing its SST name gives the
/// number back: the on-disk naming scheme is unambiguous.
pub proof fn lemma_sst_name_round_trip(n: u64)
    ensures
        spec_parse_sst_name(sst_name_bytes(n as nat)) == Some(n),
{
    let s = sst_name_bytes(n as nat);
    let d = dec_digits(n as nat);
    lemma_dec_digits_are_digits(n as nat);
    lemma_digits_value_of_dec_digits(n as nat);
    assert(s.subrange(s.len() - 4, s.len() as int) =~= seq![46u8, 108u8, 111u8, 103u8]);
    assert(s.subrange(0, s.len() - 4) =~= d);
}

/// The highest SST sequence number among a directory's entries, or 0 when
/// none matches: recovery numbers the next SST from here.
pub open spec fn spec_max_sst(names: Seq<Seq<char>>) -> nat
    decreases names.len(),
{
    if names.len() == 0 {
        0
    } else {
        let rest = spec_max_sst(names.drop_last());
        match spec_parse_sst_name(encode_utf8(names.last())) {
            Some(v) => if v as nat > rest {
                v as nat
            } else {
                rest
            },
            None => rest,
        }
    }
}

/// Scans a directory listing for `<n>.log` names and returns the highest
/// sequence number found, 0 when there is none.
pub fn max_sst_seq(names: &Vec<String>) -> (r: u64)
    ensures
        r as nat == spec_max_sst(names@.map_values(|s: String| s@)),
{
    let ghost views = names@.map_values(|s: String| s@);
    let mut best: u64 = 0;
    let mut i: usize = 0;
    while i < names.len()
        invariant
            i <= names@.len(),
            views == names@.map_values(|s: String| s@),
            best as nat == spec_max_sst(views.take(i as int)),
        decreases names@.len() - i,
    {
        proof {
            assert(views.take(i + 1).drop_last() =~= views.take(i as int));
            assert(views.take(i + 1).last() == names@[i as int]@);
        }
        match parse_sst_file_name(names[i].as_str()) {
            Some(v) => {
                if v > best {
                    best = v;
                }
            },
            None => {},
        }
        i = i + 1;
    }
    proof {
        assert(views.take(views.len() as int) =~= views);
    }
    best
}

} // verus!
