//! The in-memory index: a mapping from key bytes to the location of that
//! key's most recent value in a log file.
//!
//! It is kept as a vector of slots with pairwise distinct keys and viewed
//! as a mathematical map; every operation says exactly what it does to
//! that map.

use vstd::prelude::*;
use vstd::slice::slice_to_vec;

use crate::bytes::bytes_eq;
use crate::file::IndexEntry;

verus! {

struct Slot {
    key: Vec<u8>,
    entry: IndexEntry,
}

/// The index: keys are byte strings, values are log locations.
pub struct Index {
    slots: Vec<Slot>,
}

spec fn map_of(s: Seq<Slot>) -> Map<Seq<u8>, IndexEntry>
    decreases s.len(),
{
    if s.len() == 0 {
        Map::empty()
    } else {
        map_of(s.drop_last()).insert(s.last().key@, s.last().entry)
    }
}

spec fn unique_keys(s: Seq<Slot>) -> bool {
    forall|i: int, j: int| 0 <= i < j < s.len() ==> s[i].key@ != s[j].key@
}

proof fn lemma_map_of_contains(s: Seq<Slot>, k: Seq<u8>)
    ensures
        map_of(s).contains_key(k) <==> exists|i: int| 0 <= i < s.len() && s[i].key@ == k,
    decreases s.len(),
{
    if s.len() > 0 {
        lemma_map_of_contains(s.drop_last(), k);
        if s.last().key@ == k {
            assert(s[s.len() - 1].key@ == k);
        } else if map_of(s).contains_key(k) {
            let i = choose|i: int| 0 <= i < s.drop_last().len() && s.drop_last()[i].key@ == k;
            assert(s[i].key@ == k);
        } else {
            assert(forall|i: int| 0 <= i < s.len() - 1 ==> s.drop_last()[i].key@ == s[i].key@);
        }
    }
}

proof fn lemma_map_of_finite(s: Seq<Slot>)
    ensures
        map_of(s).dom().finite(),
    decreases s.len(),
{
    if s.len() > 0 {
        lemma_map_of_finite(s.drop_last());
    }
}

proof fn lemma_map_of_get(s: Seq<Slot>, i: int)
    requires
        unique_keys(s),
        0 <= i < s.len(),
    ensures
        map_of(s).contains_key(s[i].key@),
        map_of(s)[s[i].key@] == s[i].entry,
    decreases s.len(),
{
    if i == s.len() - 1 {
    } else {
        assert(forall|j: int| 0 <= j < s.len() - 1 ==> s.drop_last()[j].key@ == s[j].key@);
        lemma_map_of_get(s.drop_last(), i);
        assert(s[i].key@ != s.last().key@);
    }
}

proof fn lemma_map_of_update(s: Seq<Slot>, i: int, slot: Slot)
    requires
        unique_keys(s),
        0 <= i < s.len(),
        slot.key@ == s[i].key@,
    ensures
        map_of(s.update(i, slot)) == map_of(s).insert(slot.key@, slot.entry),
    decreases s.len(),
{
    let t = s.update(i, slot);
    if i == s.len() - 1 {
        assert(t.drop_last() =~= s.drop_last());
        assert(t.last() == slot);
        assert(map_of(s.drop_last()).insert(slot.key@, slot.entry) =~= map_of(s.drop_last()).insert(
            s.last().key@,
            s.last().entry,
        ).insert(slot.key@, slot.entry));
    } else {
        assert(forall|j: int| 0 <= j < s.len() - 1 ==> s.drop_last()[j].key@ == s[j].key@);
        lemma_map_of_update(s.drop_last(), i, slot);
        assert(t.drop_last() =~= s.drop_last().update(i, slot));
        assert(t.last() == s.last());
        assert(slot.key@ != s.last().key@);
        assert(map_of(s.drop_last()).insert(slot.key@, slot.entry).insert(
            s.last().key@,
            s.last().entry,
        ) =~= map_of(s.drop_last()).insert(s.last().key@, s.last().entry).insert(
            slot.key@,
            slot.entry,
        ));
    }
}

proof fn lemma_map_of_remove(s: Seq<Slot>, i: int)
    requires
        unique_keys(s),
        0 <= i < s.len(),
    ensures
        map_of(s.remove(i)) == map_of(s).remove(s[i].key@),
    decreases s.len(),
{
    let k = s[i].key@;
    let t = s.remove(i);
    if i == s.len() - 1 {
        assert(t =~= s.drop_last());
        lemma_map_of_contains(s.drop_last(), k);
        assert(forall|j: int| 0 <= j < s.len() - 1 ==> s.drop_last()[j].key@ == s[j].key@);
        assert(!map_of(s.drop_last()).contains_key(k));
        assert(map_of(s.drop_last()).insert(k, s[i].entry).remove(k) =~= map_of(s.drop_last()));
    } else {
        assert(forall|j: int| 0 <= j < s.len() - 1 ==> s.drop_last()[j].key@ == s[j].key@);
        lemma_map_of_remove(s.drop_last(), i);
        assert(t.drop_last() =~= s.drop_last().remove(i));
        assert(t.last() == s.last());
        assert(k != s.last().key@);
        assert(map_of(s.drop_last()).remove(k).insert(s.last().key@, s.last().entry)
            =~= map_of(s.drop_last()).insert(s.last().key@, s.last().entry).remove(k));
    }
}

proof fn lemma_map_of_len(s: Seq<Slot>)
    requires
        unique_keys(s),
    ensures
        map_of(s).dom().len() == s.len(),
        map_of(s).dom().finite(),
    decreases s.len(),
{
    if s.len() == 0 {
    } else {
        assert(forall|j: int| 0 <= j < s.len() - 1 ==> s.drop_last()[j].key@ == s[j].key@);
        lemma_map_of_len(s.drop_last());
        lemma_map_of_contains(s.drop_last(), s.last().key@);
        assert(!map_of(s.drop_last()).contains_key(s.last().key@));
        assert(map_of(s).dom() =~= map_of(s.drop_last()).dom().insert(s.last().key@));
    }
}

impl View for Index {
    type V = Map<Seq<u8>, IndexEntry>;

    closed spec fn view(&self) -> Map<Seq<u8>, IndexEntry> {
        map_of(self.slots@)
    }
}

impl Index {
    /// Keys of distinct slots are distinct.
    pub closed spec fn wf(self) -> bool {
        unique_keys(self.slots@)
    }

    /// An empty index.
    pub(crate) fn new() -> (r: Index)
        ensures
            r.wf(),
            r@ == Map::<Seq<u8>, IndexEntry>::empty(),
    {
        Index { slots: Vec::new() }
    }

    /// The slot holding `key`, if any.
    fn find(&self, key: &[u8]) -> (r: Option<usize>)
        ensures
            (match r {
                Some(i) => i < self.slots@.len() && self.slots@[i as int].key@ == key@,
                None => forall|i: int| 0 <= i < self.slots@.len() ==> self.slots@[i].key@ != key@,
            }),
    {
        let mut i: usize = 0;
        while i < self.slots.len()
            invariant
                i <= self.slots@.len(),
                forall|j: int| 0 <= j < i ==> self.slots@[j].key@ != key@,
            decreases self.slots@.len() - i,
        {
            let slot = &self.slots[i];
            if bytes_eq(slot.key.as_slice(), key) {
                return Some(i);
            }
            i += 1;
        }
        None
    }

    /// Look a key up.
    pub(crate) fn get(&self, key: &[u8]) -> (r: Option<IndexEntry>)
        requires
            self.wf(),
        ensures
            (match r {
                Some(e) => self@.contains_key(key@) && self@[key@] == e,
                None => !self@.contains_key(key@),
            }),
    {
        match self.find(key) {
            Some(i) => {
                proof {
                    lemma_map_of_get(self.slots@, i as int);
                }
                let slot = &self.slots[i];
                Some(slot.entry)
            },
            None => {
                proof {
                    lemma_map_of_contains(self.slots@, key@);
                }
                None
            },
        }
    }

    /// Bind `key` to `entry`, overwriting any previous binding.
    pub(crate) fn insert(&mut self, key: &[u8], entry: IndexEntry)
        requires
            old(self).wf(),
        ensures
            final(self).wf(),
            final(self)@ == old(self)@.insert(key@, entry),
    {
        let ghost s = self.slots@;
        match self.find(key) {
            Some(i) => {
                let slot = &mut self.slots[i];
                slot.entry = entry;
                proof {
                    let t = self.slots@;
                    assert(t =~= s.update(i as int, t[i as int]));
                    assert(t[i as int].key@ == key@);
                    lemma_map_of_update(s, i as int, t[i as int]);
                    assert(unique_keys(t)) by {
                        assert(forall|j: int| 0 <= j < t.len() ==> t[j].key@ == s[j].key@);
                    }
                }
            },
            None => {
                let owned = slice_to_vec(key);
                self.slots.push(Slot { key: owned, entry });
                proof {
                    let t = self.slots@;
                    assert(t.drop_last() =~= s);
                    assert(t.last().key@ == key@);
                    assert(unique_keys(t)) by {
                        assert(forall|j: int| 0 <= j < s.len() ==> t[j].key@ == s[j].key@);
                    }
                }
            },
        }
    }

    /// Unbind `key`, returning the entry it was bound to, if any.
    pub(crate) fn remove(&mut self, key: &[u8]) -> (r: Option<IndexEntry>)
        requires
            old(self).wf(),
        ensures
            final(self).wf(),
            final(self)@ == old(self)@.remove(key@),
            (match r {
                Some(e) => old(self)@.contains_key(key@) && old(self)@[key@] == e,
                None => !old(self)@.contains_key(key@),
            }),
    {
        let ghost s = self.slots@;
        match self.find(key) {
            Some(i) => {
                proof {
                    lemma_map_of_get(s, i as int);
                    lemma_map_of_remove(s, i as int);
                }
                let slot = self.slots.remove(i);
                proof {
                    let t = self.slots@;
                    assert(unique_keys(t)) by {
                        assert(forall|j: int|
                            0 <= j < t.len() ==> t[j] == (if j < i {
                                s[j]
                            } else {
                                s[j + 1]
                            }));
                    }
                }
                Some(slot.entry)
            },
            None => {
                proof {
                    lemma_map_of_contains(s, key@);
                    assert(self@.remove(key@) =~= self@);
                }
                None
            },
        }
    }

    /// How many keys are bound.
    pub(crate) fn len(&self) -> (r: usize)
        requires
            self.wf(),
        ensures
            r == self@.dom().len(),
    {
        proof {
            lemma_map_of_len(self.slots@);
        }
        self.slots.len()
    }
}

} // verus!
