//! One log file: a byte image holding a contiguous sequence of encoded
//! records, a combined append/read cursor over it, and a one-record
//! lookahead cache.
//!
//! The append cursor and the sequential read cursor are one variable, so
//! the file is a two-state machine: *appending* (cursor at the end) and
//! *iterating* (cursor anywhere else, or a peek cached).  Code that wants
//! to iterate calls [`StoreFile::reset`] first and
//! [`StoreFile::unset`] before appending again; an append attempted while
//! iterating is refused with a usage error rather than corrupting the log.
//! Positional reads bypass the cursor entirely and are legal in either
//! state.

use vstd::prelude::*;

use crate::bytes::copy_range;
use crate::codec::{decode_record, encode_insert, encode_remove, rec_enc, Decoded};
use crate::codec::{dec_at, lemma_decode_encode, lemma_enc_len};
use crate::kv::Error;
use crate::model::{
    all_valid, enc_all, lemma_enc_all_push, lemma_enc_all_split, lemma_enc_all_take_lt,
    lemma_enc_all_take_succ,
};
use crate::record::{Record, RecordData, MAX_KEY_LEN, MAX_VAL_LEN};

verus! {

/// Identifier of one log file; the active log of a fresh store is file 1.
#[derive(Debug, Clone, Copy, PartialEq, Eq, PartialOrd, Ord, Structural)]
pub struct FileId(pub(crate) u64);

/// Where a value lives: which file, the byte offset of the first value
/// byte (not of the record header), and the value's length.
#[derive(Debug, Clone, Copy, PartialEq, Eq, Structural)]
pub struct IndexEntry {
    pub(crate) file: FileId,
    pub(crate) offset: usize,
    pub(crate) length: usize,
}

/// A log file held as an in-memory byte image.
pub struct StoreFile {
    id: FileId,
    data: Vec<u8>,
    offset: usize,
    recent_peek: Option<Record>,
    records: Ghost<Seq<RecordData>>,
    consumed: Ghost<int>,
}

impl StoreFile {
    /// The records the file holds, in log order.
    pub closed spec fn records(self) -> Seq<RecordData> {
        self.records@
    }

    /// The raw byte image of the file.
    pub closed spec fn bytes(self) -> Seq<u8> {
        self.data@
    }

    /// How many records the sequential cursor has passed.
    pub closed spec fn cursor(self) -> int {
        self.consumed@
    }

    /// The file's identifier.
    pub closed spec fn id(self) -> FileId {
        self.id
    }

    /// The appending state: the cursor is at the end and no peek is
    /// cached, so the next append lands at the end of the image.
    pub closed spec fn appending(self) -> bool {
        self.consumed@ == self.records@.len() && self.recent_peek is None
    }

    /// Well-formedness: the byte image is exactly the concatenated
    /// encodings of the records, every record respects the sanity caps,
    /// the byte offset agrees with the record cursor, and a cached peek is
    /// exactly the record under the cursor.
    pub closed spec fn wf(self) -> bool {
        &&& self.data@ == enc_all(self.records@)
        &&& all_valid(self.records@)
        &&& 0 <= self.consumed@ <= self.records@.len()
        &&& self.offset == enc_all(self.records@.take(self.consumed@)).len()
        &&& (match self.recent_peek {
            Some(r) => self.consumed@ < self.records@.len() && r@ == self.records@[self.consumed@],
            None => true,
        })
    }

    /// A well-formed file holds only records within the sanity caps.
    pub proof fn lemma_wf_records_valid(self)
        requires
            self.wf(),
        ensures
            all_valid(self.records()),
            self.bytes() == enc_all(self.records()),
            12 * self.records().len() <= self.bytes().len(),
            self.records().len() <= self.bytes().len(),
            0 <= self.cursor() <= self.records().len(),
    {
        lemma_enc_all_min_len(self.records@);
    }

    /// The byte length of the log image; after any successful append it
    /// equals the append offset.
    pub fn byte_len(&self) -> (r: usize)
        ensures
            r == self.bytes().len(),
    {
        self.data.len()
    }

    /// A fresh, empty log file.
    pub(crate) fn make(id: FileId) -> (r: StoreFile)
        ensures
            r.wf(),
            r.id() == id,
            r.records() == Seq::<RecordData>::empty(),
            r.bytes() == Seq::<u8>::empty(),
            r.cursor() == 0,
            r.appending(),
    {
        let r = StoreFile {
            id,
            data: Vec::new(),
            offset: 0,
            recent_peek: None,
            records: Ghost(Seq::empty()),
            consumed: Ghost(0),
        };
        proof {
            assert(Seq::<RecordData>::empty().take(0) =~= Seq::<RecordData>::empty());
        }
        r
    }

    /// Under well-formedness, the byte cursor is at the end of the image
    /// exactly when the record cursor is at the end of the records.
    proof fn lemma_at_end(self)
        requires
            self.wf(),
        ensures
            (self.offset == self.data@.len()) <==> self.consumed@ == self.records@.len(),
            self.offset <= self.data@.len(),
    {
        if self.consumed@ == self.records@.len() {
            assert(self.records@.take(self.consumed@) =~= self.records@);
        } else {
            lemma_enc_all_take_lt(self.records@, self.consumed@);
        }
        lemma_enc_all_split(self.records@, self.consumed@);
        assert(self.records@.take(self.consumed@) + self.records@.skip(self.consumed@)
            =~= self.records@);
    }

    /// Append an insertion record; the returned entry points at the value
    /// bytes just written.  Refused while iterating, or beyond the caps.
    pub(crate) fn insert(&mut self, key: &[u8], val: &[u8]) -> (r: crate::kv::Result<IndexEntry>)
        requires
            old(self).wf(),
        ensures
            final(self).wf(),
            final(self).id() == old(self).id(),
            !old(self).appending() ==> (r matches Err(e) && e == Error::Usage && *final(self)
                == *old(self)),
            old(self).appending() && (key@.len() > MAX_KEY_LEN || val@.len() > MAX_VAL_LEN) ==> (
            r matches Err(e) && e == Error::Oversized && *final(self) == *old(self)),
            old(self).appending() && key@.len() <= MAX_KEY_LEN && val@.len() <= MAX_VAL_LEN ==> (
            r matches Ok(entry) && {
                let rec = RecordData::Insert { key: key@, val: val@ };
                &&& final(self).records() == old(self).records().push(rec)
                &&& final(self).bytes() == old(self).bytes() + rec_enc(rec)
                &&& final(self).appending()
                &&& final(self).cursor() == old(self).records().len() + 1
                &&& entry.file == old(self).id()
                &&& entry.offset == old(self).bytes().len() + 16 + key@.len()
                &&& entry.length == val@.len()
                &&& entry.offset + entry.length == final(self).bytes().len()
                &&& final(self).bytes().subrange(
                    entry.offset as int,
                    entry.offset + entry.length,
                ) == val@
            }),
    {
        proof {
            old(self).lemma_at_end();
        }
        if self.offset != self.data.len() {
            return Err(Error::Usage);
        }
        if key.len() > MAX_KEY_LEN || val.len() > MAX_VAL_LEN {
            return Err(Error::Oversized);
        }
        let ghost rec = RecordData::Insert { key: key@, val: val@ };
        encode_insert(&mut self.data, key, val);
        self.offset = self.data.len();
        proof {
            lemma_enc_all_push(self.records@, rec);
            lemma_enc_len(rec);
        }
        self.records = Ghost(self.records@.push(rec));
        self.consumed = Ghost(self.records@.len() as int);
        let length = val.len();
        let value_off = self.data.len() - length;
        proof {
            assert(self.records@.take(self.records@.len() as int) =~= self.records@);
            assert(all_valid(self.records@)) by {
                assert(forall|i: int|
                    0 <= i < self.records@.len() - 1 ==> self.records@[i] == old(
                    self).records()[i]);
            }
            assert(self.data@.subrange(value_off as int, value_off + length) =~= val@) by {
                assert(forall|i: int|
                    0 <= i < length ==> #[trigger] self.data@[value_off + i] == rec_enc(rec)[16
                        + key@.len() + i] == val@[i]);
            }
        }
        Ok(IndexEntry { file: self.id, offset: value_off, length })
    }

    /// Append a tombstone record.  Refused while iterating, or beyond the
    /// key cap.
    pub(crate) fn remove(&mut self, key: &[u8]) -> (r: crate::kv::Result<()>)
        requires
            old(self).wf(),
        ensures
            final(self).wf(),
            final(self).id() == old(self).id(),
            !old(self).appending() ==> (r matches Err(e) && e == Error::Usage && *final(self)
                == *old(self)),
            old(self).appending() && key@.len() > MAX_KEY_LEN ==> (r matches Err(e) && e
                == Error::Oversized && *final(self) == *old(self)),
            old(self).appending() && key@.len() <= MAX_KEY_LEN ==> (r matches Ok(u) && {
                let rec = RecordData::Remove { key: key@ };
                &&& final(self).records() == old(self).records().push(rec)
                &&& final(self).bytes() == old(self).bytes() + rec_enc(rec)
                &&& final(self).appending()
                &&& final(self).cursor() == old(self).records().len() + 1
            }),
    {
        proof {
            old(self).lemma_at_end();
        }
        if self.offset != self.data.len() {
            return Err(Error::Usage);
        }
        if key.len() > MAX_KEY_LEN {
            return Err(Error::Oversized);
        }
        let ghost rec = RecordData::Remove { key: key@ };
        encode_remove(&mut self.data, key);
        self.offset = self.data.len();
        proof {
            lemma_enc_all_push(self.records@, rec);
            lemma_enc_len(rec);
        }
        self.records = Ghost(self.records@.push(rec));
        self.consumed = Ghost(self.records@.len() as int);
        proof {
            assert(self.records@.take(self.records@.len() as int) =~= self.records@);
            assert(all_valid(self.records@)) by {
                assert(forall|i: int|
                    0 <= i < self.records@.len() - 1 ==> self.records@[i] == old(
                    self).records()[i]);
            }
        }
        Ok(())
    }

    /// Append a record of either variant.
    pub(crate) fn exec(&mut self, record: &Record) -> (r: crate::kv::Result<()>)
        requires
            old(self).wf(),
        ensures
            final(self).wf(),
            final(self).id() == old(self).id(),
            !old(self).appending() ==> (r matches Err(e) && e == Error::Usage && *final(self)
                == *old(self)),
            old(self).appending() && !record@.valid() ==> (r matches Err(e) && e == Error::Oversized
                && *final(self) == *old(self)),
            old(self).appending() && record@.valid() ==> (r matches Ok(u) && {
                &&& final(self).records() == old(self).records().push(record@)
                &&& final(self).bytes() == old(self).bytes() + rec_enc(record@)
                &&& final(self).appending()
            }),
    {
        match record {
            Record::Insert(key, val) => {
                match self.insert(key.as_slice(), val.as_slice()) {
                    Ok(_) => Ok(()),
                    Err(e) => Err(e),
                }
            },
            Record::Remove(key) => self.remove(key.as_slice()),
        }
    }

    /// Positional read of `length` bytes at absolute offset `offset`.  It
    /// touches neither cursor nor peek: the receiver is shared.
    pub(crate) fn read(&self, offset: usize, length: usize) -> (r: crate::kv::Result<Vec<u8>>)
        ensures
            offset + length <= self.bytes().len() ==> (r matches Ok(v) && v@
                == self.bytes().subrange(offset as int, offset + length)),
            offset + length > self.bytes().len() ==> (r matches Err(e) && e == Error::Eof),
    {
        if length > self.data.len() || offset > self.data.len() - length {
            return Err(Error::Eof);
        }
        Ok(copy_range(&self.data, offset, offset + length))
    }

    /// Decoding at the cursor of a well-formed file yields exactly the
    /// record under the cursor.
    proof fn lemma_decode_at_cursor(self)
        requires
            self.wf(),
            self.consumed@ < self.records@.len(),
        ensures
            dec_at(self.data@, self.offset as int) == (Decoded::Rec {
                rec: self.records@[self.consumed@],
                next: enc_all(self.records@.take(self.consumed@ + 1)).len() as int,
            }),
            enc_all(self.records@.take(self.consumed@ + 1)).len() <= self.data@.len(),
    {
        let rs = self.records@;
        let c = self.consumed@;
        let s = self.data@;
        let off = self.offset as int;
        let e = rec_enc(rs[c]);
        lemma_enc_all_split(rs, c + 1);
        lemma_enc_all_take_succ(rs, c);
        lemma_enc_all_take_lt(rs, c);
        lemma_enc_len(rs[c]);
        assert(s.subrange(off, off + rs[c].enc_len()) =~= e) by {
            assert(s == (enc_all(rs.take(c)) + e) + enc_all(rs.skip(c + 1)));
        }
        lemma_decode_encode(s, off, rs[c]);
    }

    /// Read the record at the sequential cursor and advance past it; a
    /// cached peek is consumed instead of re-decoding.  At the end of the
    /// log this reports `Eof` and changes nothing.
    pub fn read_record(&mut self) -> (r: crate::kv::Result<Record>)
        requires
            old(self).wf(),
        ensures
            final(self).wf(),
            final(self).id() == old(self).id(),
            final(self).records() == old(self).records(),
            final(self).bytes() == old(self).bytes(),
            old(self).cursor() < old(self).records().len() ==> (r matches Ok(rec) && rec@ == old(
                self).records()[old(self).cursor()] && final(self).cursor() == old(self).cursor()
                + 1),
            old(self).cursor() == old(self).records().len() ==> (r matches Err(e) && e == Error::Eof
                && *final(self) == *old(self)),
    {
        let cached = self.recent_peek.take();
        match cached {
            Some(rec) => {
                let n: usize = self.data.len();
                proof {
                    lemma_enc_all_take_lt(self.records@, self.consumed@);
                    lemma_enc_all_take_succ(self.records@, self.consumed@);
                    lemma_enc_all_split(self.records@, self.consumed@ + 1);
                    lemma_enc_len(self.records@[self.consumed@]);
                    assert(self.offset + rec@.enc_len() <= n);
                }
                self.offset = self.offset + rec.len();
                self.consumed = Ghost(self.consumed@ + 1);
                Ok(rec)
            },
            None => {
                proof {
                    self.lemma_at_end();
                    if self.consumed@ < self.records@.len() {
                        self.lemma_decode_at_cursor();
                    }
                }
                match decode_record(&self.data, self.offset) {
                    Ok((rec, next)) => {
                        self.offset = next;
                        self.consumed = Ghost(self.consumed@ + 1);
                        Ok(rec)
                    },
                    Err(e) => Err(e),
                }
            },
        }
    }

    /// Look at the record under the cursor without advancing; the record
    /// stays cached until consumed by [`StoreFile::read_record`] or
    /// invalidated by [`StoreFile::reset`] or [`StoreFile::unset`].
    pub fn peek_record(&mut self) -> (r: crate::kv::Result<&Record>)
        requires
            old(self).wf(),
        ensures
            final(self).wf(),
            final(self).id() == old(self).id(),
            final(self).records() == old(self).records(),
            final(self).bytes() == old(self).bytes(),
            final(self).cursor() == old(self).cursor(),
            old(self).cursor() < old(self).records().len() ==> (r matches Ok(rec) && rec@ == old(
                self).records()[old(self).cursor()]),
            old(self).cursor() == old(self).records().len() ==> (r matches Err(e) && e == Error::Eof
                && *final(self) == *old(self)),
    {
        if self.recent_peek.is_none() {
            proof {
                self.lemma_at_end();
            }
            if self.offset == self.data.len() {
                return Err(Error::Eof);
            }
            proof {
                self.lemma_decode_at_cursor();
            }
            match decode_record(&self.data, self.offset) {
                Ok((rec, _next)) => {
                    self.recent_peek = Some(rec);
                },
                Err(e) => {
                    proof {
                        assert(false);
                    }
                    return Err(e);
                },
            }
        }
        match &self.recent_peek {
            Some(rec) => Ok(rec),
            None => {
                proof {
                    assert(false);
                }
                Err(Error::Eof)
            },
        }
    }

    /// Move the sequential cursor back to the start of the log, dropping
    /// any cached peek: the iterating state.
    pub fn reset(&mut self)
        requires
            old(self).wf(),
        ensures
            final(self).wf(),
            final(self).id() == old(self).id(),
            final(self).records() == old(self).records(),
            final(self).bytes() == old(self).bytes(),
            final(self).cursor() == 0,
            final(self).appending() <==> final(self).records().len() == 0,
    {
        self.offset = 0;
        self.recent_peek = None;
        self.consumed = Ghost(0);
        proof {
            assert(self.records@.take(0) =~= Seq::<RecordData>::empty());
        }
    }

    /// Fast-forward both cursors to the end of the log, dropping any
    /// cached peek: the appending state, ready for appends again.
    pub fn unset(&mut self)
        requires
            old(self).wf(),
        ensures
            final(self).wf(),
            final(self).id() == old(self).id(),
            final(self).records() == old(self).records(),
            final(self).bytes() == old(self).bytes(),
            final(self).cursor() == final(self).records().len(),
            final(self).appending(),
    {
        self.offset = self.data.len();
        self.recent_peek = None;
        self.consumed = Ghost(self.records@.len() as int);
        proof {
            assert(self.records@.take(self.records@.len() as int) =~= self.records@);
        }
    }

    /// The number of records in the file, counted by a full forward scan;
    /// the cursor is left at the end, ready for appends.
    pub fn record_count(&mut self) -> (r: usize)
        requires
            old(self).wf(),
        ensures
            final(self).wf(),
            final(self).id() == old(self).id(),
            final(self).records() == old(self).records(),
            final(self).bytes() == old(self).bytes(),
            final(self).appending(),
            r == old(self).records().len(),
    {
        self.reset();
        let mut count: usize = 0;
        let n: usize = self.data.len();
        proof {
            lemma_enc_all_min_len(self.records@);
            assert(self.bytes().len() == n);
        }
        loop
            invariant
                self.wf(),
                self.id() == old(self).id(),
                self.records() == old(self).records(),
                self.bytes() == old(self).bytes(),
                0 <= self.cursor() <= self.records().len(),
                count == self.cursor(),
                12 * self.records().len() <= self.bytes().len(),
                self.bytes().len() <= usize::MAX,
            ensures
                self.wf(),
                self.id() == old(self).id(),
                self.records() == old(self).records(),
                self.bytes() == old(self).bytes(),
                count == self.records().len(),
            decreases self.records().len() - self.cursor(),
        {
            match self.read_record() {
                Ok(_) => {
                    count = count + 1;
                },
                Err(_) => {
                    break;
                },
            }
        }
        self.unset();
        count
    }
}

/// Every record costs at least a header: the byte image bounds the record
/// count.
proof fn lemma_enc_all_min_len(rs: Seq<RecordData>)
    ensures
        enc_all(rs).len() >= 12 * rs.len(),
    decreases rs.len(),
{
    if rs.len() > 0 {
        lemma_enc_all_min_len(rs.drop_last());
        lemma_enc_len(rs.last());
    }
}

} // verus!
