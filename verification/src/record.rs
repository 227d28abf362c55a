//! The log record: a tagged union of an insertion (key and value) and a
//! tombstone (key only), together with its mathematical model and the
//! byte-level encoding used by the log.
//!
//! Binary layout, big-endian integers:
//!
//! ```text
//! Insert:  op:u64 = 1 | key_len:u32 | val_len:u32 | key bytes | val bytes
//! Remove:  op:u64 = 2 | key_len:u32 |               key bytes
//! ```

use vstd::prelude::*;

verus! {

/// Sanity cap on key length: a decoded key length beyond this fails.
pub const MAX_KEY_LEN: usize = 0x100_0000;

/// Sanity cap on value length: a decoded value length beyond this fails.
pub const MAX_VAL_LEN: usize = 0x1000_0000;

/// Opcode tag of an insertion record.
pub const OP_INSERT: u64 = 1;

/// Opcode tag of a tombstone record.
pub const OP_REMOVE: u64 = 2;

/// One record of the append-only log.
#[derive(Debug, Clone)]
pub enum Record {
    /// Asserts that, as of this log position, the key maps to the value.
    Insert(Vec<u8>, Vec<u8>),
    /// A tombstone: the key is no longer present as of this log position.
    Remove(Vec<u8>),
}

/// The mathematical model of a record: the same tagged union over byte
/// sequences.
#[verifier::ext_equal]
pub enum RecordData {
    Insert { key: Seq<u8>, val: Seq<u8> },
    Remove { key: Seq<u8> },
}

impl View for Record {
    type V = RecordData;

    open spec fn view(&self) -> RecordData {
        match self {
            Record::Insert(key, val) => RecordData::Insert { key: key@, val: val@ },
            Record::Remove(key) => RecordData::Remove { key: key@ },
        }
    }
}

impl RecordData {
    /// The key of the record, whichever variant it is.
    pub open spec fn key(self) -> Seq<u8> {
        match self {
            RecordData::Insert { key, .. } => key,
            RecordData::Remove { key } => key,
        }
    }

    /// The value carried by an insertion; a tombstone carries none.
    pub open spec fn val(self) -> Option<Seq<u8>> {
        match self {
            RecordData::Insert { val, .. } => Some(val),
            RecordData::Remove { .. } => None,
        }
    }

    /// The encoded size of the record in bytes.
    pub open spec fn enc_len(self) -> int {
        match self {
            RecordData::Insert { key, val } => 16 + key.len() as int + val.len() as int,
            RecordData::Remove { key } => 12 + key.len() as int,
        }
    }

    /// Whether the record respects the length sanity caps, so that the
    /// codec will accept it again after encoding it.
    pub open spec fn valid(self) -> bool {
        match self {
            RecordData::Insert { key, val } => key.len() <= MAX_KEY_LEN && val.len() <= MAX_VAL_LEN,
            RecordData::Remove { key } => key.len() <= MAX_KEY_LEN,
        }
    }
}

impl Record {
    /// The key of the record, whichever variant it is.
    pub fn key(&self) -> (r: &[u8])
        ensures
            r@ == self@.key(),
    {
        match self {
            Record::Insert(key, _) => key.as_slice(),
            Record::Remove(key) => key.as_slice(),
        }
    }

    /// The value of an insertion, or nothing for a tombstone.
    pub fn val(&self) -> (r: Option<&[u8]>)
        ensures
            (match r {
                Some(v) => self@.val() == Some(v@),
                None => self@.val() is None,
            }),
    {
        match self {
            Record::Insert(_, val) => Some(val.as_slice()),
            Record::Remove(_) => None,
        }
    }

    /// The encoded size of the record in bytes.
    pub fn len(&self) -> (r: usize)
        requires
            self@.enc_len() <= usize::MAX,
        ensures
            r == self@.enc_len(),
    {
        match self {
            Record::Insert(key, val) => 8 + 4 + 4 + key.len() + val.len(),
            Record::Remove(key) => 8 + 4 + key.len(),
        }
    }

    /// Whether the encoded size is zero; it never is, since even an empty
    /// key costs a header.
    pub fn is_empty(&self) -> (r: bool)
        requires
            self@.enc_len() <= usize::MAX,
        ensures
            r == (self@.enc_len() == 0),
    {
        self.len() == 0
    }
}

} // verus!
