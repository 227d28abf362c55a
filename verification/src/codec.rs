//! The binary record codec: encoding of records onto a byte log, the
//! specification-level decoder, and the proof that the two are inverse.
//!
//! All multi-byte integers are big-endian.  There is no header, magic
//! number or checksum: a log is a plain concatenation of encoded records.

use vstd::prelude::*;

use crate::bytes::{copy_range, push_bytes};
use crate::kv::Error;
use crate::record::{Record, RecordData, MAX_KEY_LEN, MAX_VAL_LEN, OP_INSERT, OP_REMOVE};

verus! {

/// The eight big-endian bytes of a 64-bit integer.
pub open spec fn u64_be(x: u64) -> Seq<u8> {
    seq![
        (x >> 56) as u8,
        (x >> 48) as u8,
        (x >> 40) as u8,
        (x >> 32) as u8,
        (x >> 24) as u8,
        (x >> 16) as u8,
        (x >> 8) as u8,
        x as u8,
    ]
}

/// The four big-endian bytes of a 32-bit integer.
pub open spec fn u32_be(x: u32) -> Seq<u8> {
    seq![(x >> 24) as u8, (x >> 16) as u8, (x >> 8) as u8, x as u8]
}

/// The 64-bit integer spelled big-endian by the eight bytes at `off`.
pub open spec fn be64_at(s: Seq<u8>, off: int) -> u64 {
    ((s[off] as u64) << 56) | ((s[off + 1] as u64) << 48) | ((s[off + 2] as u64) << 40) | ((s[off
        + 3] as u64) << 32) | ((s[off + 4] as u64) << 24) | ((s[off + 5] as u64) << 16) | ((s[off
        + 6] as u64) << 8) | (s[off + 7] as u64)
}

/// The 32-bit integer spelled big-endian by the four bytes at `off`.
pub open spec fn be32_at(s: Seq<u8>, off: int) -> u32 {
    ((s[off] as u32) << 24) | ((s[off + 1] as u32) << 16) | ((s[off + 2] as u32) << 8) | (s[off
        + 3] as u32)
}

/// The encoding of one record.  Length fields are taken modulo 2^32, as
/// the executable encoder would write them; for records within the sanity
/// caps the fields are exact.
pub open spec fn rec_enc(r: RecordData) -> Seq<u8> {
    match r {
        RecordData::Insert { key, val } => u64_be(OP_INSERT) + u32_be(key.len() as u32) + u32_be(
            val.len() as u32,
        ) + key + val,
        RecordData::Remove { key } => u64_be(OP_REMOVE) + u32_be(key.len() as u32) + key,
    }
}

/// The encoded length of a record equals its nominal size: 16 bytes of
/// header plus key and value for an insertion, 12 bytes of header plus key
/// for a tombstone.
pub proof fn lemma_enc_len(r: RecordData)
    ensures
        rec_enc(r).len() == r.enc_len(),
{
}

/// What decoding at a position yields: a record and the position after it,
/// or a failure.
#[verifier::ext_equal]
pub enum Decoded {
    Rec { rec: RecordData, next: int },
    Fail { err: Error },
}

/// The specification-level decoder: what any correct reading of the bytes
/// at `off` must produce.  `Eof` marks a clean end at a record boundary;
/// an unknown opcode, a length beyond the caps, and a record cut short
/// each fail with their own error.
pub open spec fn dec_at(s: Seq<u8>, off: int) -> Decoded {
    if off >= s.len() {
        Decoded::Fail { err: Error::Eof }
    } else if s.len() - off < 12 {
        Decoded::Fail { err: Error::Truncated }
    } else {
        let op = be64_at(s, off);
        let klen = be32_at(s, off + 8) as int;
        if op == OP_INSERT {
            if s.len() - off < 16 {
                Decoded::Fail { err: Error::Truncated }
            } else {
                let vlen = be32_at(s, off + 12) as int;
                if klen > MAX_KEY_LEN {
                    Decoded::Fail { err: Error::Oversized }
                } else if vlen > MAX_VAL_LEN {
                    Decoded::Fail { err: Error::Oversized }
                } else if off + 16 + klen + vlen > s.len() {
                    Decoded::Fail { err: Error::Truncated }
                } else {
                    Decoded::Rec {
                        rec: RecordData::Insert {
                            key: s.subrange(off + 16, off + 16 + klen),
                            val: s.subrange(off + 16 + klen, off + 16 + klen + vlen),
                        },
                        next: off + 16 + klen + vlen,
                    }
                }
            }
        } else if op == OP_REMOVE {
            if klen > MAX_KEY_LEN {
                Decoded::Fail { err: Error::Oversized }
            } else if off + 12 + klen > s.len() {
                Decoded::Fail { err: Error::Truncated }
            } else {
                Decoded::Rec {
                    rec: RecordData::Remove { key: s.subrange(off + 12, off + 12 + klen) },
                    next: off + 12 + klen,
                }
            }
        } else {
            Decoded::Fail { err: Error::Unsupported }
        }
    }
}

/// Append the eight big-endian bytes of `x`.
pub(crate) fn push_u64_be(out: &mut Vec<u8>, x: u64)
    ensures
        final(out)@ == old(out)@ + u64_be(x),
{
    out.push((x >> 56) as u8);
    out.push((x >> 48) as u8);
    out.push((x >> 40) as u8);
    out.push((x >> 32) as u8);
    out.push((x >> 24) as u8);
    out.push((x >> 16) as u8);
    out.push((x >> 8) as u8);
    out.push(x as u8);
    proof {
        assert(out@ =~= old(out)@ + u64_be(x));
    }
}

/// Append the four big-endian bytes of `x`.
fn push_u32_be(out: &mut Vec<u8>, x: u32)
    ensures
        final(out)@ == old(out)@ + u32_be(x),
{
    out.push((x >> 24) as u8);
    out.push((x >> 16) as u8);
    out.push((x >> 8) as u8);
    out.push(x as u8);
    proof {
        assert(out@ =~= old(out)@ + u32_be(x));
    }
}

/// Append the encoding of `Insert(key, val)` to `out`.
pub fn encode_insert(out: &mut Vec<u8>, key: &[u8], val: &[u8])
    ensures
        final(out)@ == old(out)@ + rec_enc(RecordData::Insert { key: key@, val: val@ }),
{
    push_u64_be(out, OP_INSERT);
    push_u32_be(out, key.len() as u32);
    push_u32_be(out, val.len() as u32);
    push_bytes(out, key);
    push_bytes(out, val);
    proof {
        assert(out@ =~= old(out)@ + rec_enc(RecordData::Insert { key: key@, val: val@ }));
    }
}

/// Append the encoding of `Remove(key)` to `out`.
pub fn encode_remove(out: &mut Vec<u8>, key: &[u8])
    ensures
        final(out)@ == old(out)@ + rec_enc(RecordData::Remove { key: key@ }),
{
    push_u64_be(out, OP_REMOVE);
    push_u32_be(out, key.len() as u32);
    push_bytes(out, key);
    proof {
        assert(out@ =~= old(out)@ + rec_enc(RecordData::Remove { key: key@ }));
    }
}

/// Append the encoding of a record, whichever variant it is.
pub fn encode_record(out: &mut Vec<u8>, rec: &Record)
    ensures
        final(out)@ == old(out)@ + rec_enc(rec@),
{
    match rec {
        Record::Insert(key, val) => encode_insert(out, key.as_slice(), val.as_slice()),
        Record::Remove(key) => encode_remove(out, key.as_slice()),
    }
}

/// Read the big-endian 64-bit integer at `i`.
fn read_u64_be(data: &Vec<u8>, i: usize) -> (r: u64)
    requires
        i + 8 <= data@.len(),
    ensures
        r == be64_at(data@, i as int),
{
    let n: usize = data.len();
    proof {
        assert(i + 8 <= n);
    }
    ((data[i] as u64) << 56) | ((data[i + 1] as u64) << 48) | ((data[i + 2] as u64) << 40) | ((
    data[i + 3] as u64) << 32) | ((data[i + 4] as u64) << 24) | ((data[i + 5] as u64) << 16) | ((
    data[i + 6] as u64) << 8) | (data[i + 7] as u64)
}

/// Read the big-endian 32-bit integer at `i`.
fn read_u32_be(data: &Vec<u8>, i: usize) -> (r: u32)
    requires
        i + 4 <= data@.len(),
    ensures
        r == be32_at(data@, i as int),
{
    let n: usize = data.len();
    proof {
        assert(i + 4 <= n);
    }
    ((data[i] as u32) << 24) | ((data[i + 1] as u32) << 16) | ((data[i + 2] as u32) << 8) | (data[i
        + 3] as u32)
}

/// Decode the record starting at `offset`, returning it together with the
/// offset just past it.  The result is exactly what the specification
/// decoder [`dec_at`] says for these bytes.
pub fn decode_record(data: &Vec<u8>, offset: usize) -> (r: crate::kv::Result<(Record, usize)>)
    ensures
        (match dec_at(data@, offset as int) {
            Decoded::Rec { rec, next } => r matches Ok(p) && p.0@ == rec && p.1 == next,
            Decoded::Fail { err } => r matches Err(e) && e == err,
        }),
{
    let n = data.len();
    if offset >= n {
        return Err(Error::Eof);
    }
    if n - offset < 12 {
        return Err(Error::Truncated);
    }
    let op = read_u64_be(data, offset);
    let klen = read_u32_be(data, offset + 8) as usize;
    if op == OP_INSERT {
        if n - offset < 16 {
            return Err(Error::Truncated);
        }
        let vlen = read_u32_be(data, offset + 12) as usize;
        if klen > MAX_KEY_LEN {
            return Err(Error::Oversized);
        }
        if vlen > MAX_VAL_LEN {
            return Err(Error::Oversized);
        }
        if n - offset - 16 < klen || n - offset - 16 - klen < vlen {
            return Err(Error::Truncated);
        }
        let key = copy_range(data, offset + 16, offset + 16 + klen);
        let val = copy_range(data, offset + 16 + klen, offset + 16 + klen + vlen);
        Ok((Record::Insert(key, val), offset + 16 + klen + vlen))
    } else if op == OP_REMOVE {
        if klen > MAX_KEY_LEN {
            return Err(Error::Oversized);
        }
        if n - offset - 12 < klen {
            return Err(Error::Truncated);
        }
        let key = copy_range(data, offset + 12, offset + 12 + klen);
        Ok((Record::Remove(key), offset + 12 + klen))
    } else {
        Err(Error::Unsupported)
    }
}

proof fn lemma_be64_at_of_enc(s: Seq<u8>, off: int, x: u64)
    requires
        0 <= off,
        off + 8 <= s.len(),
        s.subrange(off, off + 8) == u64_be(x),
    ensures
        be64_at(s, off) == x,
{
    let sub = s.subrange(off, off + 8);
    assert(s[off] == sub[0] && s[off + 1] == sub[1] && s[off + 2] == sub[2] && s[off + 3] == sub[3]
        && s[off + 4] == sub[4] && s[off + 5] == sub[5] && s[off + 6] == sub[6] && s[off + 7]
        == sub[7]);
    assert(sub[0] == (x >> 56) as u8);
    assert(sub[1] == (x >> 48) as u8);
    assert(sub[2] == (x >> 40) as u8);
    assert(sub[3] == (x >> 32) as u8);
    assert(sub[4] == (x >> 24) as u8);
    assert(sub[5] == (x >> 16) as u8);
    assert(sub[6] == (x >> 8) as u8);
    assert(sub[7] == x as u8);
    assert((((((x >> 56) as u8) as u64) << 56) | ((((x >> 48) as u8) as u64) << 48) | ((((x
        >> 40) as u8) as u64) << 40) | ((((x >> 32) as u8) as u64) << 32) | ((((x
        >> 24) as u8) as u64) << 24) | ((((x >> 16) as u8) as u64) << 16) | ((((x
        >> 8) as u8) as u64) << 8) | ((x as u8) as u64)) == x) by (bit_vector);
}

proof fn lemma_be32_at_of_enc(s: Seq<u8>, off: int, x: u32)
    requires
        0 <= off,
        off + 4 <= s.len(),
        s.subrange(off, off + 4) == u32_be(x),
    ensures
        be32_at(s, off) == x,
{
    let sub = s.subrange(off, off + 4);
    assert(s[off] == sub[0] && s[off + 1] == sub[1] && s[off + 2] == sub[2] && s[off + 3]
        == sub[3]);
    assert(sub[0] == (x >> 24) as u8);
    assert(sub[1] == (x >> 16) as u8);
    assert(sub[2] == (x >> 8) as u8);
    assert(sub[3] == x as u8);
    assert((((((x >> 24) as u8) as u32) << 24) | ((((x >> 16) as u8) as u32) << 16) | ((((x
        >> 8) as u8) as u32) << 8) | ((x as u8) as u32)) == x) by (bit_vector);
}

/// Decoding inverts encoding: wherever the bytes of a valid record sit in
/// a log, the decoder recovers exactly that record and stops exactly at
/// its end, whatever bytes surround it.
pub proof fn lemma_decode_encode(s: Seq<u8>, off: int, r: RecordData)
    requires
        r.valid(),
        0 <= off,
        off + r.enc_len() <= s.len(),
        s.subrange(off, off + r.enc_len()) == rec_enc(r),
    ensures
        dec_at(s, off) == (Decoded::Rec { rec: r, next: off + r.enc_len() }),
{
    lemma_enc_len(r);
    let enc = rec_enc(r);
    let l = r.enc_len();
    match r {
        RecordData::Insert { key, val } => {
            let klen = key.len() as int;
            let vlen = val.len() as int;
            assert(s.subrange(off, off + 8) =~= enc.subrange(0, 8));
            assert(enc.subrange(0, 8) =~= u64_be(OP_INSERT));
            lemma_be64_at_of_enc(s, off, OP_INSERT);
            assert(s.subrange(off + 8, off + 12) =~= enc.subrange(8, 12));
            assert(enc.subrange(8, 12) =~= u32_be(key.len() as u32));
            lemma_be32_at_of_enc(s, off + 8, key.len() as u32);
            assert(s.subrange(off + 12, off + 16) =~= enc.subrange(12, 16));
            assert(enc.subrange(12, 16) =~= u32_be(val.len() as u32));
            lemma_be32_at_of_enc(s, off + 12, val.len() as u32);
            assert(be32_at(s, off + 8) == klen) by {
                assert((key.len() as u32) as int == key.len() as int);
            }
            assert(be32_at(s, off + 12) == vlen) by {
                assert((val.len() as u32) as int == val.len() as int);
            }
            assert(s.subrange(off + 16, off + 16 + klen) =~= enc.subrange(16, 16 + klen));
            assert(enc.subrange(16, 16 + klen) =~= key);
            assert(s.subrange(off + 16 + klen, off + 16 + klen + vlen) =~= enc.subrange(
                16 + klen, 16 + klen + vlen));
            assert(enc.subrange(16 + klen, 16 + klen + vlen) =~= val);
            assert(dec_at(s, off) =~~= (Decoded::Rec { rec: r, next: off + r.enc_len() }));
        },
        RecordData::Remove { key } => {
            let klen = key.len() as int;
            assert(s.subrange(off, off + 8) =~= enc.subrange(0, 8));
            assert(enc.subrange(0, 8) =~= u64_be(OP_REMOVE));
            lemma_be64_at_of_enc(s, off, OP_REMOVE);
            assert(s.subrange(off + 8, off + 12) =~= enc.subrange(8, 12));
            assert(enc.subrange(8, 12) =~= u32_be(key.len() as u32));
            lemma_be32_at_of_enc(s, off + 8, key.len() as u32);
            assert(be32_at(s, off + 8) == klen) by {
                assert((key.len() as u32) as int == key.len() as int);
            }
            assert(s.subrange(off + 12, off + 12 + klen) =~= enc.subrange(12, 12 + klen));
            assert(enc.subrange(12, 12 + klen) =~= key);
            assert(OP_REMOVE != OP_INSERT);
            assert(dec_at(s, off) =~~= (Decoded::Rec { rec: r, next: off + r.enc_len() }));
        },
    }
}

/// Codec round trip: decoding the encoding of any valid record, from the
/// start of the encoding, gives the record back and consumes exactly its
/// encoded length.
pub proof fn lemma_codec_round_trip(r: RecordData)
    requires
        r.valid(),
    ensures
        dec_at(rec_enc(r), 0) == (Decoded::Rec { rec: r, next: r.enc_len() }),
{
    lemma_enc_len(r);
    assert(rec_enc(r).subrange(0, r.enc_len()) =~= rec_enc(r));
    lemma_decode_encode(rec_enc(r), 0, r);
}

} // verus!
