//! The store: the active log file plus the in-memory index, with point
//! insert, point remove and point lookup.
//!
//! The store's view is the key-to-value mapping denoted by replaying the
//! active log; the invariant ties every index entry to the byte range of
//! that key's current value inside the log image.

use vstd::prelude::*;

use crate::file::{FileId, StoreFile};
use crate::index::Index;
use crate::kv::Error;
use crate::model::{
    all_inserts, last_write, lemma_replay_last_write, lemma_replay_push, proj, replay,
    strictly_sorted_by_key,
};
use crate::record::{RecordData, MAX_KEY_LEN, MAX_VAL_LEN};
use crate::reduce::{chunks_proj, merge, split};

verus! {

/// The key-value store: an identifier for the active log, the directory
/// it came from, the active log file, and the index over it.
pub struct Store {
    id: FileId,
    base: String,
    active: StoreFile,
    index: Index,
}

impl View for Store {
    type V = Map<Seq<u8>, Seq<u8>>;

    /// The mapping the store exposes: the replay of its active log.
    closed spec fn view(&self) -> Map<Seq<u8>, Seq<u8>> {
        replay(self.active.records())
    }
}

impl Store {
    /// The records of the active log, in log order.
    pub closed spec fn log(self) -> Seq<RecordData> {
        self.active.records()
    }

    /// Whether the active log is in the appending state, so that inserts
    /// and removes are accepted.
    pub closed spec fn ready(self) -> bool {
        self.active.appending()
    }

    /// The active log file as a value, for contracts about [`Store::file`].
    pub closed spec fn active_file(self) -> StoreFile {
        self.active
    }

    /// This store with its active log file replaced.
    pub closed spec fn with_active(self, f: StoreFile) -> Store {
        Store { active: f, ..self }
    }

    /// The store's mapping is the replay of its log.
    pub proof fn lemma_view_is_replay(self)
        ensures
            self@ == replay(self.log()),
    {
    }

    /// The store invariant: the active log is well formed and carries the
    /// store's identifier, the index binds exactly the keys the log binds,
    /// and each entry points at the byte range of that key's current value.
    pub closed spec fn wf(self) -> bool {
        &&& self.active.wf()
        &&& self.active.id() == self.id
        &&& self.index.wf()
        &&& self.index@.dom() == replay(self.active.records()).dom()
        &&& forall|k: Seq<u8>| #[trigger] self.index@.contains_key(k) ==> {
            let e = self.index@[k];
            &&& e.file == self.id
            &&& e.offset + e.length <= self.active.bytes().len()
            &&& replay(self.active.records()).contains_key(k)
            &&& self.active.bytes().subrange(e.offset as int, e.offset + e.length) == replay(
                self.active.records(),
            )[k]
        }
    }

    /// Open a store over the given base directory: an empty index and a
    /// fresh active log with identifier 1.
    pub fn open(base: &str) -> (r: crate::kv::Result<Store>)
        ensures
            (r matches Ok(s) && {
                &&& s.wf()
                &&& s@ == Map::<Seq<u8>, Seq<u8>>::empty()
                &&& s.log() == Seq::<RecordData>::empty()
                &&& s.ready()
                &&& s.active_id() == 1
            }),
    {
        let id = FileId(1);
        let store = Store {
            id,
            base: base.to_owned(),
            active: StoreFile::make(id),
            index: Index::new(),
        };
        proof {
            assert(store@ =~= Map::<Seq<u8>, Seq<u8>>::empty());
            assert(store.index@.dom() =~= store@.dom());
        }
        Ok(store)
    }

    /// Bind `key` to `val`: append an insertion record to the active log
    /// and point the index at the value just written.  Refused while the
    /// log is positioned for iteration, or beyond the length caps.
    pub fn insert(&mut self, key: &[u8], val: &[u8]) -> (r: crate::kv::Result<()>)
        requires
            old(self).wf(),
        ensures
            final(self).wf(),
            final(self).active_id() == old(self).active_id(),
            !old(self).ready() ==> (r matches Err(e) && e == Error::Usage && *final(self) == *old(
            self)),
            old(self).ready() && (key@.len() > MAX_KEY_LEN || val@.len() > MAX_VAL_LEN) ==> (
            r matches Err(e) && e == Error::Oversized && *final(self) == *old(self)),
            old(self).ready() && key@.len() <= MAX_KEY_LEN && val@.len() <= MAX_VAL_LEN ==> (
            r matches Ok(u) && {
                &&& final(self)@ == old(self)@.insert(key@, val@)
                &&& final(self).ready()
                &&& final(self).log() == old(self).log().push(
                    RecordData::Insert { key: key@, val: val@ },
                )
            }),
    {
        let ghost prior = *self;
        let entry = match self.active.insert(key, val) {
            Ok(entry) => entry,
            Err(e) => {
                return Err(e);
            },
        };
        let ghost rec = RecordData::Insert { key: key@, val: val@ };
        proof {
            lemma_replay_push(prior.active.records(), rec);
        }
        self.index.insert(key, entry);
        proof {
            let m0 = replay(prior.active.records());
            let m1 = replay(self.active.records());
            assert(m1 == m0.insert(key@, val@));
            assert(self.index@.dom() =~= m1.dom());
            assert forall|k: Seq<u8>| #[trigger] self.index@.contains_key(k) implies {
                let e = self.index@[k];
                &&& e.file == self.id
                &&& e.offset + e.length <= self.active.bytes().len()
                &&& m1.contains_key(k)
                &&& self.active.bytes().subrange(e.offset as int, e.offset + e.length) == m1[k]
            } by {
                let e = self.index@[k];
                if k == key@ {
                    assert(e == entry);
                    assert(m1[k] == val@);
                } else {
                    assert(prior.index@.contains_key(k));
                    assert(e == prior.index@[k]);
                    assert(m1[k] == m0[k]);
                    assert(self.active.bytes().subrange(e.offset as int, e.offset + e.length)
                        =~= prior.active.bytes().subrange(e.offset as int, e.offset + e.length));
                }
            }
        }
        Ok(())
    }

    /// Unbind `key`: append a tombstone to the active log unconditionally
    /// and drop the key from the index, reporting whether it was bound.
    /// Refused while the log is positioned for iteration, or beyond the
    /// key length cap.
    pub fn remove(&mut self, key: &[u8]) -> (r: crate::kv::Result<bool>)
        requires
            old(self).wf(),
        ensures
            final(self).wf(),
            final(self).active_id() == old(self).active_id(),
            !old(self).ready() ==> (r matches Err(e) && e == Error::Usage && *final(self) == *old(
            self)),
            old(self).ready() && key@.len() > MAX_KEY_LEN ==> (r matches Err(e) && e
                == Error::Oversized && *final(self) == *old(self)),
            old(self).ready() && key@.len() <= MAX_KEY_LEN ==> (r matches Ok(present) && {
                &&& present == old(self)@.contains_key(key@)
                &&& final(self)@ == old(self)@.remove(key@)
                &&& final(self).ready()
                &&& final(self).log() == old(self).log().push(RecordData::Remove { key: key@ })
            }),
    {
        let ghost prior = *self;
        match self.active.remove(key) {
            Ok(_) => {},
            Err(e) => {
                return Err(e);
            },
        }
        let ghost rec = RecordData::Remove { key: key@ };
        proof {
            lemma_replay_push(prior.active.records(), rec);
        }
        let prior_entry = self.index.remove(key);
        proof {
            let m0 = replay(prior.active.records());
            let m1 = replay(self.active.records());
            assert(m1 == m0.remove(key@));
            assert(self.index@.dom() =~= m1.dom());
            assert forall|k: Seq<u8>| #[trigger] self.index@.contains_key(k) implies {
                let e = self.index@[k];
                &&& e.file == self.id
                &&& e.offset + e.length <= self.active.bytes().len()
                &&& m1.contains_key(k)
                &&& self.active.bytes().subrange(e.offset as int, e.offset + e.length) == m1[k]
            } by {
                let e = self.index@[k];
                assert(k != key@);
                assert(prior.index@.contains_key(k));
                assert(e == prior.index@[k]);
                assert(m1[k] == m0[k]);
                assert(self.active.bytes().subrange(e.offset as int, e.offset + e.length)
                    =~= prior.active.bytes().subrange(e.offset as int, e.offset + e.length));
            }
        }
        Ok(prior_entry.is_some())
    }

    /// Look `key` up: read the value bytes the index points at, through a
    /// positional read that disturbs neither cursor of the active log.
    /// Absence is success with no value, not an error.
    pub fn lookup(&mut self, key: &[u8]) -> (r: crate::kv::Result<Option<Vec<u8>>>)
        requires
            old(self).wf(),
        ensures
            *final(self) == *old(self),
            (r matches Ok(opt) && match opt {
                Some(v) => old(self)@.contains_key(key@) && v@ == old(self)@[key@],
                None => !old(self)@.contains_key(key@),
            }),
    {
        match self.index.get(key) {
            Some(entry) => {
                match self.active.read(entry.offset, entry.length) {
                    Ok(buf) => Ok(Some(buf)),
                    Err(e) => {
                        proof {
                            assert(false);
                        }
                        Err(e)
                    },
                }
            },
            None => Ok(None),
        }
    }

    /// How many keys are bound.
    pub fn len(&self) -> (r: usize)
        requires
            self.wf(),
        ensures
            r == self@.dom().len(),
    {
        self.index.len()
    }

    /// Whether no key is bound.
    pub fn is_empty(&self) -> (r: bool)
        requires
            self.wf(),
        ensures
            r == (self@.dom().len() == 0),
    {
        self.len() == 0
    }

    /// Rewrite the active log by an external sort: split it into chunks
    /// of roughly `limit` encoded bytes, sort each, and merge them back,
    /// collapsing each key to its last write and dropping tombstoned
    /// keys.  The mapping the store exposes is unchanged; afterwards the
    /// log holds only insertions, in strictly ascending key order, and
    /// the index is rebuilt over the new log.
    pub fn reduce(&mut self, limit: usize) -> (r: crate::kv::Result<()>)
        requires
            old(self).wf(),
            limit > 0,
        ensures
            final(self).wf(),
            final(self).active_id() == old(self).active_id(),
            (r matches Ok(u) && {
                &&& final(self)@ == old(self)@
                &&& final(self).ready()
                &&& strictly_sorted_by_key(final(self).log())
                &&& all_inserts(final(self).log())
            }),
    {
        let ghost old_log = self.active.records();
        let mut chunks = split(&mut self.active, limit);
        let ghost chunks_view = chunks@;
        self.active = StoreFile::make(self.id);
        let new_index = merge(&mut self.active, &mut chunks);
        self.index = new_index;
        proof {
            let m0 = replay(old_log);
            let m1 = replay(self.active.records());
            assert forall|k: Seq<u8>|
                #![all_triggers]
                (m1.contains_key(k) == m0.contains_key(k)) && (m0.contains_key(k) ==> m1[k]
                    == m0[k]) by {
                lemma_replay_last_write(old_log, k);
                assert(chunks_proj(chunks_view, k) == proj(old_log, k));
            }
            assert(m1.dom() =~= m0.dom());
            assert(m1 =~= m0);
        }
        Ok(())
    }

    /// The identifier of the active log file.
    pub closed spec fn active_id(self) -> u64 {
        self.id.0
    }

    /// The file name of the active log under the base directory: the file
    /// identifier as a 20-digit zero-padded decimal, with the data
    /// extension.
    pub fn active_log_name(&self) -> (r: String)
        ensures
            r@ == crate::util::log_file_name(self.active_id()),
    {
        crate::util::log_name(self.id.0)
    }

    /// What a caller of [`Store::file`] needs to drive the iteration
    /// protocol: a well-formed store's active log is well formed, holds
    /// exactly the store's records, and is in the appending state exactly
    /// when the store accepts writes.
    pub proof fn lemma_file_protocol(self)
        requires
            self.wf(),
        ensures
            self.active_file().wf(),
            self.log() == self.active_file().records(),
            self.ready() <==> self.active_file().appending(),
    {
    }

    /// Iterating the active log through [`Store::file`] — moving its
    /// cursor or its peek, but leaving records and bytes alone — preserves
    /// the store invariant and the mapping.
    pub proof fn lemma_file_restore(self, f: StoreFile)
        requires
            self.wf(),
            f.wf(),
            f.records() == self.active_file().records(),
            f.bytes() == self.active_file().bytes(),
            f.id() == self.active_file().id(),
        ensures
            self.with_active(f).wf(),
            self.with_active(f)@ == self@,
            self.with_active(f).log() == self.log(),
            self.with_active(f).active_id() == self.active_id(),
            self.with_active(f).ready() <==> f.appending(),
    {
    }

    /// The active log file, for in-order iteration after a reduce.  The
    /// caller owns the iterating protocol: `reset`, read, then `unset`
    /// before mutating the store again.
    pub fn file(&mut self) -> (r: &mut StoreFile)
        ensures
            *r == old(self).active_file(),
            *final(self) == old(self).with_active(*final(r)),
    {
        &mut self.active
    }
}

/// Round trip: a write binds its key to its value, so a lookup on the
/// mapping [`Store::insert`] leaves behind yields exactly the value
/// written.
pub proof fn lemma_write_reads_back(m: Map<Seq<u8>, Seq<u8>>, k: Seq<u8>, v: Seq<u8>)
    ensures
        m.insert(k, v).contains_key(k),
        m.insert(k, v)[k] == v,
{
}

/// Shadowing: of two writes to one key, the second decides what a lookup
/// yields.
pub proof fn lemma_second_write_shadows(
    m: Map<Seq<u8>, Seq<u8>>,
    k: Seq<u8>,
    v1: Seq<u8>,
    v2: Seq<u8>,
)
    ensures
        m.insert(k, v1).insert(k, v2).contains_key(k),
        m.insert(k, v1).insert(k, v2)[k] == v2,
{
}

/// Tombstone: after the mapping change a [`Store::remove`] leaves behind,
/// the key is unbound, whatever was bound before; a later write binds it
/// again.
pub proof fn lemma_tombstone_unbinds(m: Map<Seq<u8>, Seq<u8>>, k: Seq<u8>, v: Seq<u8>)
    ensures
        !m.remove(k).contains_key(k),
        m.remove(k).insert(k, v).contains_key(k),
        m.remove(k).insert(k, v)[k] == v,
{
}

/// Writes and removes of one key leave every other key's binding alone:
/// a written value stays observable however the rest of the store is
/// mutated.
pub proof fn lemma_other_keys_untouched(m: Map<Seq<u8>, Seq<u8>>, k: Seq<u8>, k2: Seq<u8>, v2: Seq<u8>)
    requires
        k != k2,
    ensures
        m.insert(k2, v2).contains_key(k) == m.contains_key(k),
        m.contains_key(k) ==> m.insert(k2, v2)[k] == m[k],
        m.remove(k2).contains_key(k) == m.contains_key(k),
        m.contains_key(k) ==> m.remove(k2)[k] == m[k],
{
}

} // verus!
