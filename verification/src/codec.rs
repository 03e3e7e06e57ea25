//! The binary codec: the byte-level layout of the metadata block, stated
//! as spec-level parse and encode functions, and the verified executable
//! decoder and encoder that realize them.
//!
//! Layout, little-endian throughout: 4 magic bytes `GGUF`, a `u32`
//! version, a `u64` tensor count, a `u64` record count `N`, then `N`
//! records. Each record is a `u64` key length, the key bytes, a `u32`
//! type tag, and the tag's payload. The encoder always writes version 1
//! and tensor count 0; the decoder accepts any version and discards the
//! tensor count, reading it only to stay positioned.

use vstd::prelude::*;
use vstd::bytes::*;

use crate::meta::GGUFMetadata;
use crate::meta::GgufError;
use crate::meta::MetaValue;
use crate::meta::MetaView;
use crate::meta::ValueView;
use crate::meta::views_of;

verus! {

/// The four magic bytes `GGUF` that open every well-formed file.
pub open spec fn spec_magic() -> Seq<u8> {
    seq![0x47u8, 0x47u8, 0x55u8, 0x46u8]
}

/// The advisory type label kept beside a decoded value: the tag as
/// decimal text, a single digit for the five supported tags.
pub open spec fn spec_tag_label(tag: u32) -> Seq<u8>
    recommends
        tag <= 4,
{
    seq![(0x30 + tag) as u8]
}

/// Parse one value of the given tag from the front of `b`: the value and
/// the bytes left over, or the error the stream earns.
pub open spec fn spec_parse_value(tag: u32, b: Seq<u8>) -> Result<(ValueView, Seq<u8>), GgufError> {
    if tag == 0 {
        Ok((ValueView::Null, b))
    } else if tag == 1 {
        if b.len() < 1 {
            Err(GgufError::TruncatedInput)
        } else {
            Ok((ValueView::Bool(b[0] != 0), b.skip(1)))
        }
    } else if tag == 2 {
        if b.len() < 8 {
            Err(GgufError::TruncatedInput)
        } else {
            Ok((ValueView::Int(spec_u64_from_le_bytes(b.take(8)) as i64), b.skip(8)))
        }
    } else if tag == 3 {
        if b.len() < 8 {
            Err(GgufError::TruncatedInput)
        } else {
            Ok((ValueView::Float(spec_u64_from_le_bytes(b.take(8))), b.skip(8)))
        }
    } else if tag == 4 {
        if b.len() < 8 {
            Err(GgufError::TruncatedInput)
        } else {
            let n = spec_u64_from_le_bytes(b.take(8));
            if b.len() - 8 < n as int {
                Err(GgufError::TruncatedInput)
            } else {
                Ok((ValueView::Str(b.subrange(8, 8 + n as int)), b.skip(8 + n as int)))
            }
        }
    } else {
        Err(GgufError::UnsupportedType)
    }
}

/// Parse one record from the front of `b`: key length, key bytes, tag,
/// payload. The record's advisory label is rebuilt from the tag.
pub open spec fn spec_parse_record(b: Seq<u8>) -> Result<(MetaView, Seq<u8>), GgufError> {
    if b.len() < 8 {
        Err(GgufError::TruncatedInput)
    } else {
        let klen = spec_u64_from_le_bytes(b.take(8));
        if b.len() - 8 < klen as int {
            Err(GgufError::TruncatedInput)
        } else {
            let key = b.subrange(8, 8 + klen as int);
            let rest = b.skip(8 + klen as int);
            if rest.len() < 4 {
                Err(GgufError::TruncatedInput)
            } else {
                let tag = spec_u32_from_le_bytes(rest.take(4));
                match spec_parse_value(tag, rest.skip(4)) {
                    Ok((value, rest2)) => Ok(
                        (MetaView { key, value, value_type: spec_tag_label(tag) }, rest2),
                    ),
                    Err(e) => Err(e),
                }
            }
        }
    }
}

/// Parse `n` records from the front of `b`.
pub open spec fn spec_parse_records(b: Seq<u8>, n: nat) -> Result<
    (Seq<MetaView>, Seq<u8>),
    GgufError,
>
    decreases n,
{
    if n == 0 {
        Ok((Seq::empty(), b))
    } else {
        match spec_parse_record(b) {
            Ok((r, rest)) => match spec_parse_records(rest, (n - 1) as nat) {
                Ok((rs, rest2)) => Ok((seq![r] + rs, rest2)),
                Err(e) => Err(e),
            },
            Err(e) => Err(e),
        }
    }
}

/// Parse a whole file image: magic, version, tensor count, record count,
/// records. Bytes after the declared records are ignored, as the reader
/// never looks past them.
pub open spec fn spec_parse_file(b: Seq<u8>) -> Result<(u32, Seq<MetaView>), GgufError> {
    if b.len() < 4 {
        Err(GgufError::TruncatedInput)
    } else if b.subrange(0, 4) != spec_magic() {
        Err(GgufError::InvalidFormat)
    } else if b.len() < 24 {
        Err(GgufError::TruncatedInput)
    } else {
        let version = spec_u32_from_le_bytes(b.subrange(4, 8));
        let count = spec_u64_from_le_bytes(b.subrange(16, 24));
        match spec_parse_records(b.skip(24), count as nat) {
            Ok((records, _)) => Ok((version, records)),
            Err(e) => Err(e),
        }
    }
}

/// The encoding of one value: its tag, then its payload.
pub open spec fn spec_encode_value(v: ValueView) -> Seq<u8> {
    match v {
        ValueView::Null => spec_u32_to_le_bytes(0),
        ValueView::Bool(x) => spec_u32_to_le_bytes(1) + seq![
            if x {
                1u8
            } else {
                0u8
            },
        ],
        ValueView::Int(i) => spec_u32_to_le_bytes(2) + spec_u64_to_le_bytes(i as u64),
        ValueView::Float(bits) => spec_u32_to_le_bytes(3) + spec_u64_to_le_bytes(bits),
        ValueView::Str(s) => spec_u32_to_le_bytes(4) + spec_u64_to_le_bytes(s.len() as u64) + s,
    }
}

/// The encoding of one record: key length, key bytes, then the value.
/// The advisory label is not written; the wire carries the tag alone.
pub open spec fn spec_encode_record(r: MetaView) -> Seq<u8> {
    spec_u64_to_le_bytes(r.key.len() as u64) + r.key + spec_encode_value(r.value)
}

/// The concatenated encodings of a record sequence, in order.
pub open spec fn spec_encode_records(rs: Seq<MetaView>) -> Seq<u8>
    decreases rs.len(),
{
    if rs.len() == 0 {
        Seq::empty()
    } else {
        spec_encode_record(rs[0]) + spec_encode_records(rs.skip(1))
    }
}

/// The whole file image for a record sequence. Every save normalizes the
/// header: version 1, tensor count 0.
pub open spec fn spec_encode_file(rs: Seq<MetaView>) -> Seq<u8> {
    spec_magic() + spec_u32_to_le_bytes(1) + spec_u64_to_le_bytes(0) + spec_u64_to_le_bytes(
        rs.len() as u64,
    ) + spec_encode_records(rs)
}

/// Read the little-endian `u32` at `pos`.
fn read_u32_at(b: &Vec<u8>, pos: usize) -> (x: u32)
    requires
        pos + 4 <= b.len(),
    ensures
        x == spec_u32_from_le_bytes(b@.subrange(pos as int, pos as int + 4)),
{
    let s = vstd::slice::slice_subrange(b.as_slice(), pos, pos + 4);
    u32_from_le_bytes(s)
}

/// Read the little-endian `u64` at `pos`.
fn read_u64_at(b: &Vec<u8>, pos: usize) -> (x: u64)
    requires
        pos + 8 <= b.len(),
    ensures
        x == spec_u64_from_le_bytes(b@.subrange(pos as int, pos as int + 8)),
{
    let s = vstd::slice::slice_subrange(b.as_slice(), pos, pos + 8);
    u64_from_le_bytes(s)
}

/// The advisory label for a supported tag, as decimal text.
fn tag_label(tag: u32) -> (r: Vec<u8>)
    requires
        tag <= 4,
    ensures
        r@ == spec_tag_label(tag),
{
    let mut r: Vec<u8> = Vec::new();
    r.push((0x30 + tag) as u8);
    r
}

/// Decode the payload of one value of the given tag, starting at `pos`.
/// Returns the value and the position just past it.
fn decode_value(b: &Vec<u8>, pos: usize, tag: u32) -> (r: Result<(MetaValue, usize), GgufError>)
    requires
        pos <= b@.len(),
    ensures
        match r {
            Ok(p) => {
                &&& pos <= p.1 <= b@.len()
                &&& spec_parse_value(tag, b@.skip(pos as int)) == Ok::<_, GgufError>(
                    (p.0@, b@.skip(p.1 as int)),
                )
            },
            Err(e) => spec_parse_value(tag, b@.skip(pos as int)) == Err::<
                (ValueView, Seq<u8>),
                _,
            >(e),
        },
{
    let ghost tail = b@.skip(pos as int);
    let remaining = b.len() - pos;
    if tag == 0 {
        Ok((MetaValue::Null, pos))
    } else if tag == 1 {
        if remaining < 1 {
            Err(GgufError::TruncatedInput)
        } else {
            let byte = b[pos];
            assert(tail[0] == b@[pos as int]);
            assert(tail.skip(1) =~= b@.skip(pos as int + 1));
            Ok((MetaValue::Bool(byte != 0), pos + 1))
        }
    } else if tag == 2 {
        if remaining < 8 {
            Err(GgufError::TruncatedInput)
        } else {
            let x = read_u64_at(b, pos);
            assert(tail.take(8) =~= b@.subrange(pos as int, pos as int + 8));
            assert(tail.skip(8) =~= b@.skip(pos as int + 8));
            Ok((MetaValue::Int(#[verifier::truncate] (x as i64)), pos + 8))
        }
    } else if tag == 3 {
        if remaining < 8 {
            Err(GgufError::TruncatedInput)
        } else {
            let x = read_u64_at(b, pos);
            assert(tail.take(8) =~= b@.subrange(pos as int, pos as int + 8));
            assert(tail.skip(8) =~= b@.skip(pos as int + 8));
            Ok((MetaValue::Float(x), pos + 8))
        }
    } else if tag == 4 {
        if remaining < 8 {
            Err(GgufError::TruncatedInput)
        } else {
            let n = read_u64_at(b, pos);
            assert(tail.take(8) =~= b@.subrange(pos as int, pos as int + 8));
            if n > (remaining - 8) as u64 {
                Err(GgufError::TruncatedInput)
            } else {
                let len = n as usize;
                let s = vstd::slice::slice_to_vec(
                    vstd::slice::slice_subrange(b.as_slice(), pos + 8, pos + 8 + len),
                );
                assert(s@ =~= tail.subrange(8, 8 + n as int));
                assert(tail.skip(8 + n as int) =~= b@.skip(pos as int + 8 + n as int));
                Ok((MetaValue::Str(s), pos + 8 + len))
            }
        }
    } else {
        Err(GgufError::UnsupportedType)
    }
}

/// Decode one whole record starting at `pos`. Returns the record and the
/// position just past it.
fn decode_record(b: &Vec<u8>, pos: usize) -> (r: Result<(GGUFMetadata, usize), GgufError>)
    requires
        pos <= b@.len(),
    ensures
        match r {
            Ok(p) => {
                &&& pos <= p.1 <= b@.len()
                &&& spec_parse_record(b@.skip(pos as int)) == Ok::<_, GgufError>(
                    (p.0@, b@.skip(p.1 as int)),
                )
            },
            Err(e) => spec_parse_record(b@.skip(pos as int)) == Err::<(MetaView, Seq<u8>), _>(e),
        },
{
    let ghost tail = b@.skip(pos as int);
    let remaining = b.len() - pos;
    if remaining < 8 {
        return Err(GgufError::TruncatedInput);
    }
    let klen = read_u64_at(b, pos);
    assert(tail.take(8) =~= b@.subrange(pos as int, pos as int + 8));
    if klen > (remaining - 8) as u64 {
        return Err(GgufError::TruncatedInput);
    }
    let klen_s = klen as usize;
    let key = vstd::slice::slice_to_vec(
        vstd::slice::slice_subrange(b.as_slice(), pos + 8, pos + 8 + klen_s),
    );
    assert(key@ =~= tail.subrange(8, 8 + klen as int));
    let pos2 = pos + 8 + klen_s;
    let ghost rest = tail.skip(8 + klen as int);
    assert(rest =~= b@.skip(pos2 as int));
    if b.len() - pos2 < 4 {
        return Err(GgufError::TruncatedInput);
    }
    let tag = read_u32_at(b, pos2);
    assert(rest.take(4) =~= b@.subrange(pos2 as int, pos2 as int + 4));
    let pos3 = pos2 + 4;
    assert(rest.skip(4) =~= b@.skip(pos3 as int));
    match decode_value(b, pos3, tag) {
        Ok((value, pos4)) => {
            let label = tag_label(tag);
            Ok((GGUFMetadata { key, value, value_type: label }, pos4))
        },
        Err(e) => Err(e),
    }
}

/// Decode a whole file image: the version it declares and its records,
/// or the error the stream earns. Bytes past the declared records are
/// ignored.
pub fn decode_file(bytes: &Vec<u8>) -> (r: Result<(u32, Vec<GGUFMetadata>), GgufError>)
    ensures
        match r {
            Ok(p) => spec_parse_file(bytes@) == Ok::<_, GgufError>((p.0, views_of(p.1@))),
            Err(e) => spec_parse_file(bytes@) == Err::<(u32, Seq<MetaView>), _>(e),
        },
{
    if bytes.len() < 4 {
        return Err(GgufError::TruncatedInput);
    }
    let ghost head = bytes@.subrange(0, 4);
    assert(head =~= seq![bytes@[0], bytes@[1], bytes@[2], bytes@[3]]);
    if !(bytes[0] == 0x47 && bytes[1] == 0x47 && bytes[2] == 0x55 && bytes[3] == 0x46) {
        assert(head != spec_magic());
        return Err(GgufError::InvalidFormat);
    }
    assert(head =~= spec_magic());
    if bytes.len() < 24 {
        return Err(GgufError::TruncatedInput);
    }
    let version = read_u32_at(bytes, 4);
    let count = read_u64_at(bytes, 16);
    let mut records: Vec<GGUFMetadata> = Vec::new();
    let mut pos: usize = 24;
    let mut i: u64 = 0;
    proof {
        assert(views_of(records@) =~= Seq::<MetaView>::empty());
    }
    while i < count
        invariant
            i <= count,
            24 <= pos <= bytes@.len(),
            bytes@.subrange(0, 4) == spec_magic(),
            count == spec_u64_from_le_bytes(bytes@.subrange(16, 24)),
            ({
                let full = spec_parse_records(bytes@.skip(24), count as nat);
                let ahead = spec_parse_records(bytes@.skip(pos as int), (count - i) as nat);
                match ahead {
                    Ok(p) => full == Ok::<_, GgufError>((views_of(records@) + p.0, p.1)),
                    Err(e) => full == Err::<(Seq<MetaView>, Seq<u8>), _>(e),
                }
            }),
        decreases count - i,
    {
        let ghost ahead = spec_parse_records(bytes@.skip(pos as int), (count - i) as nat);
        match decode_record(bytes, pos) {
            Ok((record, newpos)) => {
                proof {
                    let rest = spec_parse_records(bytes@.skip(newpos as int), (count - i - 1) as nat);
                    match rest {
                        Ok(p) => {
                            assert(ahead == Ok::<_, GgufError>((seq![record@] + p.0, p.1)));
                            assert(views_of(records@.push(record)) =~= views_of(records@).push(
                                record@,
                            ));
                            assert(views_of(records@) + (seq![record@] + p.0) =~= views_of(
                                records@.push(record),
                            ) + p.0);
                        },
                        Err(_) => {
                            assert(ahead == rest);
                        },
                    }
                }
                records.push(record);
                pos = newpos;
            },
            Err(e) => {
                proof {
                    assert(ahead == Err::<(Seq<MetaView>, Seq<u8>), GgufError>(e));
                }
                return Err(e);
            },
        }
        i = i + 1;
    }
    proof {
        let ahead = spec_parse_records(bytes@.skip(pos as int), 0);
        assert(ahead == Ok::<_, GgufError>((Seq::<MetaView>::empty(), bytes@.skip(pos as int))));
        assert(views_of(records@) + Seq::<MetaView>::empty() =~= views_of(records@));
    }
    Ok((version, records))
}

/// A record the encoder can reproduce exactly: its key and any text
/// payload fit their 64-bit length prefixes. Every record held in a real
/// vector satisfies this; the bound matters only to spec-level sequences.
pub open spec fn spec_encodable(r: MetaView) -> bool {
    &&& r.key.len() < 0x1_0000_0000_0000_0000
    &&& (r.value matches ValueView::Str(s) ==> s.len() < 0x1_0000_0000_0000_0000)
}

/// What a record looks like after one trip through the codec: key and
/// value are kept exactly; the advisory label is rebuilt from the
/// value's wire tag, so a label that had drifted from the value is
/// normalized.
pub open spec fn spec_normal_record(r: MetaView) -> MetaView {
    MetaView { key: r.key, value: r.value, value_type: spec_tag_label(r.value.tag()) }
}

/// A signed 64-bit integer survives the trip through its unsigned bit
/// pattern, which is how the codec moves it.
proof fn lemma_i64_bits_round_trip(x: i64)
    ensures
        (x as u64) as i64 == x,
{
    assert((x as u64) as i64 == x) by (bit_vector);
}

/// Parsing an encoded value under its own tag gives the value back and
/// leaves the tail untouched.
proof fn lemma_parse_value_encode(v: ValueView, tail: Seq<u8>)
    requires
        v matches ValueView::Str(s) ==> s.len() < 0x1_0000_0000_0000_0000,
    ensures
        spec_encode_value(v).len() >= 4,
        spec_encode_value(v).take(4) == spec_u32_to_le_bytes(v.tag()),
        spec_parse_value(v.tag(), spec_encode_value(v).skip(4) + tail) == Ok::<_, GgufError>(
            (v, tail),
        ),
{
    lemma_auto_spec_u32_to_from_le_bytes();
    lemma_auto_spec_u64_to_from_le_bytes();
    let enc = spec_encode_value(v);
    match v {
        ValueView::Null => {
            assert(enc.take(4) =~= spec_u32_to_le_bytes(0));
            assert(enc.skip(4) + tail =~= tail);
        },
        ValueView::Bool(x) => {
            let byte: u8 = if x {
                1
            } else {
                0
            };
            assert(enc.take(4) =~= spec_u32_to_le_bytes(1));
            let b = enc.skip(4) + tail;
            assert(b =~= seq![byte] + tail);
            assert(b[0] == byte);
            assert(b.skip(1) =~= tail);
        },
        ValueView::Int(i) => {
            assert(enc.take(4) =~= spec_u32_to_le_bytes(2));
            let b = enc.skip(4) + tail;
            assert(b =~= spec_u64_to_le_bytes(i as u64) + tail);
            assert(b.take(8) =~= spec_u64_to_le_bytes(i as u64));
            lemma_i64_bits_round_trip(i);
            assert(b.skip(8) =~= tail);
        },
        ValueView::Float(bits) => {
            assert(enc.take(4) =~= spec_u32_to_le_bytes(3));
            let b = enc.skip(4) + tail;
            assert(b =~= spec_u64_to_le_bytes(bits) + tail);
            assert(b.take(8) =~= spec_u64_to_le_bytes(bits));
            assert(b.skip(8) =~= tail);
        },
        ValueView::Str(s) => {
            assert(enc.take(4) =~= spec_u32_to_le_bytes(4));
            let b = enc.skip(4) + tail;
            assert(b =~= spec_u64_to_le_bytes(s.len() as u64) + s + tail);
            assert(b.take(8) =~= spec_u64_to_le_bytes(s.len() as u64));
            let n = spec_u64_from_le_bytes(b.take(8));
            assert(n == s.len() as u64);
            assert(n as int == s.len());
            assert(b.len() - 8 == s.len() + tail.len());
            assert(b.subrange(8, 8 + n as int) =~= s);
            assert(b.skip(8 + n as int) =~= tail);
        },
    }
}

/// Parsing an encoded record gives the record back, normalized, and
/// leaves the tail untouched.
proof fn lemma_parse_record_encode(r: MetaView, tail: Seq<u8>)
    requires
        spec_encodable(r),
    ensures
        spec_parse_record(spec_encode_record(r) + tail) == Ok::<_, GgufError>(
            (spec_normal_record(r), tail),
        ),
{
    lemma_auto_spec_u32_to_from_le_bytes();
    lemma_auto_spec_u64_to_from_le_bytes();
    lemma_parse_value_encode(r.value, tail);
    let klen = r.key.len() as u64;
    let venc = spec_encode_value(r.value);
    let b = spec_encode_record(r) + tail;
    assert(b =~= spec_u64_to_le_bytes(klen) + r.key + venc + tail);
    assert(b.take(8) =~= spec_u64_to_le_bytes(klen));
    assert(spec_u64_from_le_bytes(b.take(8)) == klen);
    assert(klen as int == r.key.len());
    assert(b.len() - 8 == r.key.len() + venc.len() + tail.len());
    assert(b.subrange(8, 8 + klen as int) =~= r.key);
    let rest = b.skip(8 + klen as int);
    assert(rest =~= venc + tail);
    assert(rest.len() >= 4);
    assert(rest.take(4) =~= venc.take(4));
    let tag = spec_u32_from_le_bytes(rest.take(4));
    assert(tag == r.value.tag());
    assert(rest.skip(4) =~= venc.skip(4) + tail);
    assert(spec_parse_value(tag, rest.skip(4)) == Ok::<_, GgufError>((r.value, tail)));
}

/// Parsing as many encoded records as were written gives them all back,
/// normalized, and leaves the tail untouched.
proof fn lemma_parse_records_encode(rs: Seq<MetaView>, tail: Seq<u8>)
    requires
        forall|i: int| 0 <= i < rs.len() ==> #[trigger] spec_encodable(rs[i]),
    ensures
        spec_parse_records(spec_encode_records(rs) + tail, rs.len()) == Ok::<_, GgufError>(
            (rs.map_values(|r: MetaView| spec_normal_record(r)), tail),
        ),
    decreases rs.len(),
{
    let normal = |r: MetaView| spec_normal_record(r);
    if rs.len() == 0 {
        assert(spec_encode_records(rs) + tail =~= tail);
        assert(rs.map_values(normal) =~= Seq::<MetaView>::empty());
    } else {
        let rest_enc = spec_encode_records(rs.skip(1)) + tail;
        let b = spec_encode_records(rs) + tail;
        assert(b =~= spec_encode_record(rs[0]) + rest_enc);
        lemma_parse_record_encode(rs[0], rest_enc);
        lemma_parse_records_encode(rs.skip(1), tail);
        assert(spec_parse_records(b, rs.len()) == Ok::<_, GgufError>(
            (seq![spec_normal_record(rs[0])] + rs.skip(1).map_values(normal), tail),
        ));
        assert(seq![spec_normal_record(rs[0])] + rs.skip(1).map_values(normal) =~= rs.map_values(
            normal,
        ));
    }
}

/// The round trip: parsing an encoded record sequence succeeds and gives
/// every record back with its key and value exactly as they were; only
/// the advisory label is rebuilt from each value's wire tag, and the
/// header is normalized to version 1.
pub proof fn lemma_encode_then_parse(rs: Seq<MetaView>)
    requires
        rs.len() < 0x1_0000_0000_0000_0000,
        forall|i: int| 0 <= i < rs.len() ==> #[trigger] spec_encodable(rs[i]),
    ensures
        spec_parse_file(spec_encode_file(rs)) == Ok::<_, GgufError>(
            (1u32, rs.map_values(|r: MetaView| spec_normal_record(r))),
        ),
{
    lemma_auto_spec_u32_to_from_le_bytes();
    lemma_auto_spec_u64_to_from_le_bytes();
    let cnt = rs.len() as u64;
    let b = spec_encode_file(rs);
    assert(b =~= spec_magic() + spec_u32_to_le_bytes(1) + spec_u64_to_le_bytes(0)
        + spec_u64_to_le_bytes(cnt) + spec_encode_records(rs));
    assert(b.len() >= 24);
    assert(b.subrange(0, 4) =~= spec_magic());
    assert(b.subrange(4, 8) =~= spec_u32_to_le_bytes(1));
    assert(b.subrange(16, 24) =~= spec_u64_to_le_bytes(cnt));
    assert(spec_u32_from_le_bytes(b.subrange(4, 8)) == 1u32);
    assert(spec_u64_from_le_bytes(b.subrange(16, 24)) == cnt);
    assert(cnt as nat == rs.len());
    lemma_parse_records_encode(rs, Seq::<u8>::empty());
    assert(spec_encode_records(rs) + Seq::<u8>::empty() =~= spec_encode_records(rs));
    assert(b.skip(24) =~= spec_encode_records(rs));
}

/// Append the little-endian bytes of `x` to `out`.
fn push_u32_le(out: &mut Vec<u8>, x: u32)
    ensures
        final(out)@ == old(out)@ + spec_u32_to_le_bytes(x),
{
    let mut bs = u32_to_le_bytes(x);
    out.append(&mut bs);
}

/// Append the little-endian bytes of `x` to `out`.
fn push_u64_le(out: &mut Vec<u8>, x: u64)
    ensures
        final(out)@ == old(out)@ + spec_u64_to_le_bytes(x),
{
    let mut bs = u64_to_le_bytes(x);
    out.append(&mut bs);
}

/// Append the tag and payload of one value to `out`.
fn encode_value_into(out: &mut Vec<u8>, v: &MetaValue)
    ensures
        final(out)@ == old(out)@ + spec_encode_value(v@),
{
    match v {
        MetaValue::Null => {
            push_u32_le(out, 0);
        },
        MetaValue::Bool(x) => {
            push_u32_le(out, 1);
            out.push(if *x {
                1
            } else {
                0
            });
            assert(final(out)@ =~= old(out)@ + spec_encode_value(v@));
        },
        MetaValue::Int(i) => {
            push_u32_le(out, 2);
            push_u64_le(out, #[verifier::truncate] (*i as u64));
            assert(final(out)@ =~= old(out)@ + spec_encode_value(v@));
        },
        MetaValue::Float(bits) => {
            push_u32_le(out, 3);
            push_u64_le(out, *bits);
            assert(final(out)@ =~= old(out)@ + spec_encode_value(v@));
        },
        MetaValue::Str(s) => {
            push_u32_le(out, 4);
            push_u64_le(out, s.len() as u64);
            let mut payload = crate::meta::copy_bytes(s);
            out.append(&mut payload);
            assert(final(out)@ =~= old(out)@ + spec_encode_value(v@));
        },
    }
}

/// Append the encoding of one record to `out`: key length, key bytes,
/// tag, payload. The advisory label is not written.
fn encode_record_into(out: &mut Vec<u8>, m: &GGUFMetadata)
    ensures
        final(out)@ == old(out)@ + spec_encode_record(m@),
{
    push_u64_le(out, m.key.len() as u64);
    let mut key = crate::meta::copy_bytes(&m.key);
    out.append(&mut key);
    encode_value_into(out, &m.value);
    assert(final(out)@ =~= old(out)@ + spec_encode_record(m@));
}

/// Appending one record to a sequence appends its encoding to the
/// sequence's encoding.
proof fn lemma_encode_records_snoc(rs: Seq<MetaView>, r: MetaView)
    ensures
        spec_encode_records(rs.push(r)) == spec_encode_records(rs) + spec_encode_record(r),
    decreases rs.len(),
{
    if rs.len() == 0 {
        assert(rs.push(r)[0] == r);
        assert(rs.push(r).skip(1) =~= Seq::<MetaView>::empty());
        assert(spec_encode_records(Seq::<MetaView>::empty()) == Seq::<u8>::empty());
        assert(spec_encode_records(rs.push(r)) == spec_encode_record(r) + Seq::<u8>::empty());
        assert(spec_encode_record(r) + Seq::<u8>::empty() =~= spec_encode_record(r));
        assert(Seq::<u8>::empty() + spec_encode_record(r) =~= spec_encode_record(r));
    } else {
        lemma_encode_records_snoc(rs.skip(1), r);
        assert(rs.push(r)[0] == rs[0]);
        assert(rs.push(r).skip(1) =~= rs.skip(1).push(r));
        assert(spec_encode_records(rs.push(r)) == spec_encode_record(rs[0])
            + spec_encode_records(rs.skip(1).push(r)));
        assert(spec_encode_record(rs[0]) + (spec_encode_records(rs.skip(1))
            + spec_encode_record(r)) =~= (spec_encode_record(rs[0]) + spec_encode_records(
            rs.skip(1),
        )) + spec_encode_record(r));
    }
}

/// Encode a whole record sequence to a file image: normalized header
/// (magic, version 1, tensor count 0), record count, then every record
/// in store order. Total: it cannot fail, because the value type is the
/// closed sum of the five supported kinds.
pub fn encode_file(records: &Vec<GGUFMetadata>) -> (out: Vec<u8>)
    ensures
        out@ == spec_encode_file(views_of(records@)),
{
    let ghost rs = views_of(records@);
    let mut out: Vec<u8> = Vec::new();
    out.push(0x47);
    out.push(0x47);
    out.push(0x55);
    out.push(0x46);
    assert(out@ =~= spec_magic());
    push_u32_le(&mut out, 1);
    push_u64_le(&mut out, 0);
    push_u64_le(&mut out, records.len() as u64);
    let ghost header = out@;
    proof {
        assert(rs.len() == records@.len());
        assert(header =~= spec_magic() + spec_u32_to_le_bytes(1) + spec_u64_to_le_bytes(0)
            + spec_u64_to_le_bytes(rs.len() as u64));
        assert(rs.take(0) =~= Seq::<MetaView>::empty());
        assert(header + Seq::<u8>::empty() =~= header);
    }
    let mut i: usize = 0;
    while i < records.len()
        invariant
            i <= records@.len(),
            rs == views_of(records@),
            rs.len() == records@.len(),
            out@ == header + spec_encode_records(rs.take(i as int)),
        decreases records@.len() - i,
    {
        encode_record_into(&mut out, &records[i]);
        proof {
            assert(rs[i as int] == records@[i as int]@);
            assert(rs.take(i + 1) =~= rs.take(i as int).push(rs[i as int]));
            lemma_encode_records_snoc(rs.take(i as int), rs[i as int]);
            assert((header + spec_encode_records(rs.take(i as int))) + spec_encode_record(
                rs[i as int],
            ) =~= header + spec_encode_records(rs.take(i + 1)));
        }
        i = i + 1;
    }
    proof {
        assert(rs.take(records@.len() as int) =~= rs);
        assert(header + spec_encode_records(rs) =~= spec_encode_file(rs));
    }
    out
}

} // verus!
