//! Log and segment records.
//!
//! A log record is three fields: the CRC-32/AIXM digest of `key || value` as
//! four little-endian bytes, the key and the value. A segment record is two
//! fields: the key and the value.

use vstd::prelude::*;
use crate::framing::{encode_fields, record_at, views, write_record, lemma_record_round_trip};
use crate::keys::copy_bytes;

verus! {

/// The CRC-32/AIXM digest of a byte string.
pub uninterp spec fn crc32_aixm(data: Seq<u8>) -> u32;

/// Relies on `crc::Crc::<u32>::checksum` over the `CRC_32_AIXM` algorithm:
/// the digest of the bytes, a function of the bytes alone.
#[verifier::external_body]
fn checksum(data: &[u8]) -> (r: u32)
    ensures
        r == crc32_aixm(data@),
{
    crc::Crc::<u32>::new(&crc::CRC_32_AIXM).checksum(data)
}

/// The four little-endian bytes of `x`.
pub open spec fn le_bytes(x: u32) -> Seq<u8> {
    seq![(x & 0xff) as u8, ((x >> 8) & 0xff) as u8, ((x >> 16) & 0xff) as u8, ((x >> 24) & 0xff) as u8]
}

/// The integer that four little-endian bytes hold.
pub open spec fn from_le_bytes(b: Seq<u8>) -> u32 {
    (b[0] as u32) | ((b[1] as u32) << 8) | ((b[2] as u32) << 16) | ((b[3] as u32) << 24)
}

/// Reading back four written bytes gives the integer.
pub proof fn lemma_le_round_trip(x: u32)
    ensures
        from_le_bytes(le_bytes(x)) == x,
{
    let b = le_bytes(x);
    let (b0, b1, b2, b3) = (b[0], b[1], b[2], b[3]);
    assert(b0 == (x & 0xff) as u8);
    assert(b1 == ((x >> 8) & 0xff) as u8);
    assert(b2 == ((x >> 16) & 0xff) as u8);
    assert(b3 == ((x >> 24) & 0xff) as u8);
    assert((b0 as u32) | ((b1 as u32) << 8) | ((b2 as u32) << 16) | ((b3 as u32) << 24) == x) by (bit_vector)
        requires
            b0 == (x & 0xff) as u8,
            b1 == ((x >> 8) & 0xff) as u8,
            b2 == ((x >> 16) & 0xff) as u8,
            b3 == ((x >> 24) & 0xff) as u8,
    ;
}

fn u32_to_le(x: u32) -> (r: Vec<u8>)
    ensures
        r@ == le_bytes(x),
{
    let mut r: Vec<u8> = Vec::with_capacity(4);
    r.push((x & 0xff) as u8);
    r.push(((x >> 8) & 0xff) as u8);
    r.push(((x >> 16) & 0xff) as u8);
    r.push(((x >> 24) & 0xff) as u8);
    assert(r@ == le_bytes(x));
    r
}

fn u32_from_le(b: &[u8]) -> (r: u32)
    requires
        b.len() == 4,
    ensures
        r == from_le_bytes(b@),
{
    (b[0] as u32) | ((b[1] as u32) << 8) | ((b[2] as u32) << 16) | ((b[3] as u32) << 24)
}

/// The stored digest of a log record over `key` and `value`.
pub open spec fn log_digest(key: Seq<u8>, value: Seq<u8>) -> Seq<u8> {
    le_bytes(crc32_aixm(key + value))
}

/// The fields of a log record.
pub open spec fn log_fields(key: Seq<u8>, value: Seq<u8>) -> Seq<Seq<u8>> {
    seq![log_digest(key, value), key, value]
}

/// A log record as it is written.
pub open spec fn log_line(key: Seq<u8>, value: Seq<u8>) -> Seq<u8> {
    encode_fields(log_fields(key, value))
}

/// The pair that the fields of a log record hold: at least three fields, the
/// first of four bytes equal to the digest of the next two.
pub open spec fn decode_log_fields(fs: Seq<Seq<u8>>) -> Option<(Seq<u8>, Seq<u8>)> {
    if fs.len() >= 3 && fs[0].len() == 4 && from_le_bytes(fs[0]) == crc32_aixm(fs[1] + fs[2]) {
        Some((fs[1], fs[2]))
    } else {
        None
    }
}

/// The fields of a segment record.
pub open spec fn segment_fields(key: Seq<u8>, value: Seq<u8>) -> Seq<Seq<u8>> {
    seq![key, value]
}

/// A segment record as it is written.
pub open spec fn segment_line(key: Seq<u8>, value: Seq<u8>) -> Seq<u8> {
    encode_fields(segment_fields(key, value))
}

/// The pair that the fields of a segment record hold: its first two fields.
pub open spec fn decode_segment_fields(fs: Seq<Seq<u8>>) -> Option<(Seq<u8>, Seq<u8>)> {
    if fs.len() >= 2 {
        Some((fs[0], fs[1]))
    } else {
        None
    }
}

/// The spec value of a decoded pair.
pub open spec fn pair_view(r: Option<(Vec<u8>, Vec<u8>)>) -> Option<(Seq<u8>, Seq<u8>)> {
    match r {
        Some((k, v)) => Some((k@, v@)),
        None => None,
    }
}

fn concat(a: &[u8], b: &[u8]) -> (r: Vec<u8>)
    ensures
        r@ == a@ + b@,
{
    let mut r = copy_bytes(a);
    let mut i: usize = 0;
    while i < b.len()
        invariant
            0 <= i <= b.len(),
            r@ == a@ + b@.subrange(0, i as int),
        decreases b.len() - i,
    {
        assert(b@.subrange(0, i + 1) == b@.subrange(0, i as int).push(b@[i as int]));
        r.push(b[i]);
        i = i + 1;
    }
    assert(b@.subrange(0, i as int) == b@);
    r
}

/// Encodes a log record for `key` and `value`.
pub fn encode_log(key: &[u8], value: &[u8]) -> (r: Vec<u8>)
    ensures
        r@ == log_line(key@, value@),
{
    let both = concat(key, value);
    let digest = u32_to_le(checksum(both.as_slice()));
    let mut fields: Vec<Vec<u8>> = Vec::with_capacity(3);
    fields.push(digest);
    fields.push(copy_bytes(key));
    fields.push(copy_bytes(value));
    assert(views(fields@) == log_fields(key@, value@));
    let mut out: Vec<u8> = Vec::new();
    write_record(&mut out, &fields);
    assert(out@ == Seq::<u8>::empty() + log_line(key@, value@));
    assert(Seq::<u8>::empty() + log_line(key@, value@) == log_line(key@, value@));
    out
}

/// Decodes the fields of a log record: the pair iff the stored digest
/// matches the key and value.
pub fn decode_log(fields: &Vec<Vec<u8>>) -> (r: Option<(Vec<u8>, Vec<u8>)>)
    ensures
        pair_view(r) == decode_log_fields(views(fields@)),
{
    if fields.len() < 3 || fields[0].len() != 4 {
        return None;
    }
    let stored = u32_from_le(fields[0].as_slice());
    let both = concat(fields[1].as_slice(), fields[2].as_slice());
    if checksum(both.as_slice()) == stored {
        Some((copy_bytes(fields[1].as_slice()), copy_bytes(fields[2].as_slice())))
    } else {
        None
    }
}

/// Encodes a segment record for `key` and `value`.
pub fn encode_segment(key: &[u8], value: &[u8]) -> (r: Vec<u8>)
    ensures
        r@ == segment_line(key@, value@),
{
    let mut out: Vec<u8> = Vec::new();
    append_segment(&mut out, key, value);
    assert(Seq::<u8>::empty() + segment_line(key@, value@) == segment_line(key@, value@));
    out
}

/// Appends a segment record for `key` and `value`.
pub fn append_segment(out: &mut Vec<u8>, key: &[u8], value: &[u8])
    ensures
        final(out)@ == old(out)@ + segment_line(key@, value@),
{
    let mut fields: Vec<Vec<u8>> = Vec::with_capacity(2);
    fields.push(copy_bytes(key));
    fields.push(copy_bytes(value));
    assert(views(fields@) == segment_fields(key@, value@));
    write_record(out, &fields);
}

/// Decodes the fields of a segment record: its first two fields.
pub fn decode_segment(fields: &Vec<Vec<u8>>) -> (r: Option<(Vec<u8>, Vec<u8>)>)
    ensures
        pair_view(r) == decode_segment_fields(views(fields@)),
{
    if fields.len() < 2 {
        return None;
    }
    Some((copy_bytes(fields[0].as_slice()), copy_bytes(fields[1].as_slice())))
}

/// A log record reads back as its key and value, and reading goes on just
/// after it, wherever it stands in a file.
pub proof fn lemma_log_round_trip(key: Seq<u8>, value: Seq<u8>, pre: Seq<u8>, post: Seq<u8>)
    ensures
        record_at(pre + log_line(key, value) + post, pre.len() as int)
            == Some((log_fields(key, value), (pre.len() + log_line(key, value).len()) as int)),
        decode_log_fields(log_fields(key, value)) == Some((key, value)),
{
    lemma_record_round_trip(log_fields(key, value), pre, post);
    lemma_le_round_trip(crc32_aixm(key + value));
}

/// A segment record reads back as its key and value, and reading goes on
/// just after it, wherever it stands in a file.
pub proof fn lemma_segment_round_trip(key: Seq<u8>, value: Seq<u8>, pre: Seq<u8>, post: Seq<u8>)
    ensures
        record_at(pre + segment_line(key, value) + post, pre.len() as int)
            == Some((segment_fields(key, value), (pre.len() + segment_line(key, value).len()) as int)),
        decode_segment_fields(segment_fields(key, value)) == Some((key, value)),
{
    lemma_record_round_trip(segment_fields(key, value), pre, post);
}

/// A log record whose stored digest has one bit flipped is rejected.
pub proof fn lemma_log_rejects_flipped_digest(key: Seq<u8>, value: Seq<u8>, bit: u32)
    requires
        bit < 32,
    ensures
        decode_log_fields(seq![le_bytes(crc32_aixm(key + value) ^ (1u32 << bit)), key, value]) is None,
{
    let c = crc32_aixm(key + value);
    let d = c ^ (1u32 << bit);
    lemma_le_round_trip(d);
    assert(d != c) by (bit_vector)
        requires
            d == c ^ (1u32 << bit),
            bit < 32,
    ;
}

} // verus!
