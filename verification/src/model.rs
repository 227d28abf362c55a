//! The mathematical model of a record log: the byte image of a sequence
//! of records, the key-to-value mapping a log denotes, and the per-key
//! projection used to reason about reorderings that keep each key's
//! history intact.

use vstd::prelude::*;

use crate::bytes::{lex_le, lex_lt};
use crate::codec::rec_enc;
use crate::record::RecordData;

verus! {

/// The models of a vector of records.
pub open spec fn views_of(s: Seq<crate::record::Record>) -> Seq<RecordData> {
    s.map_values(|r: crate::record::Record| r@)
}

pub broadcast proof fn lemma_views_of_len(s: Seq<crate::record::Record>)
    ensures
        #[trigger] views_of(s).len() == s.len(),
{
}

pub broadcast proof fn lemma_views_of_index(s: Seq<crate::record::Record>, i: int)
    ensures
        0 <= i < s.len() ==> #[trigger] views_of(s)[i] == s[i]@,
{
}

/// The byte image of a sequence of records: their encodings, concatenated.
pub open spec fn enc_all(rs: Seq<RecordData>) -> Seq<u8>
    decreases rs.len(),
{
    if rs.len() == 0 {
        Seq::empty()
    } else {
        enc_all(rs.drop_last()) + rec_enc(rs.last())
    }
}

/// Every record respects the length sanity caps.
pub open spec fn all_valid(rs: Seq<RecordData>) -> bool {
    forall|i: int| 0 <= i < rs.len() ==> (#[trigger] rs[i]).valid()
}

/// The key-to-value mapping that a log denotes: replay the records in
/// order, an insertion binding its key and a tombstone unbinding it.
pub open spec fn replay(rs: Seq<RecordData>) -> Map<Seq<u8>, Seq<u8>>
    decreases rs.len(),
{
    if rs.len() == 0 {
        Map::empty()
    } else {
        match rs.last() {
            RecordData::Insert { key, val } => replay(rs.drop_last()).insert(key, val),
            RecordData::Remove { key } => replay(rs.drop_last()).remove(key),
        }
    }
}

/// The predicate "this record's key is `k`".
pub open spec fn key_is(k: Seq<u8>) -> spec_fn(RecordData) -> bool {
    |r: RecordData| r.key() == k
}

/// The subsequence of records whose key is `k`, in log order: the history
/// of one key.
pub open spec fn proj(rs: Seq<RecordData>, k: Seq<u8>) -> Seq<RecordData> {
    rs.filter(key_is(k))
}

/// What a history leaves bound: the value of its last record if that is an
/// insertion, nothing if it is a tombstone or the history is empty.
pub open spec fn last_write(h: Seq<RecordData>) -> Option<Seq<u8>> {
    if h.len() == 0 {
        None
    } else {
        match h.last() {
            RecordData::Insert { val, .. } => Some(val),
            RecordData::Remove { .. } => None,
        }
    }
}

/// Keys appear in non-decreasing order.
pub open spec fn sorted_by_key(rs: Seq<RecordData>) -> bool {
    forall|i: int, j: int| 0 <= i < j < rs.len() ==> lex_le(rs[i].key(), rs[j].key())
}

/// Keys appear in strictly increasing order: each key at most once.
pub open spec fn strictly_sorted_by_key(rs: Seq<RecordData>) -> bool {
    forall|i: int, j: int| 0 <= i < j < rs.len() ==> lex_lt(rs[i].key(), rs[j].key())
}

/// Every record is an insertion: no tombstone remains.
pub open spec fn all_inserts(rs: Seq<RecordData>) -> bool {
    forall|i: int| 0 <= i < rs.len() ==> (#[trigger] rs[i]) is Insert
}

pub proof fn lemma_enc_all_concat(a: Seq<RecordData>, b: Seq<RecordData>)
    ensures
        enc_all(a + b) == enc_all(a) + enc_all(b),
    decreases b.len(),
{
    if b.len() == 0 {
        assert(a + b =~= a);
        assert(enc_all(a) + enc_all(b) =~= enc_all(a));
    } else {
        lemma_enc_all_concat(a, b.drop_last());
        assert((a + b).drop_last() =~= a + b.drop_last());
        assert((a + b).last() == b.last());
        assert(enc_all(a) + enc_all(b.drop_last()) + rec_enc(b.last()) =~= enc_all(a) + enc_all(b));
    }
}

/// A log splits at any point into the bytes of a prefix and of the rest.
pub proof fn lemma_enc_all_split(rs: Seq<RecordData>, i: int)
    requires
        0 <= i <= rs.len(),
    ensures
        enc_all(rs) == enc_all(rs.take(i)) + enc_all(rs.skip(i)),
{
    assert(rs.take(i) + rs.skip(i) =~= rs);
    lemma_enc_all_concat(rs.take(i), rs.skip(i));
}

/// Consuming one more record advances the byte cursor by exactly that
/// record's encoding.
pub proof fn lemma_enc_all_take_succ(rs: Seq<RecordData>, i: int)
    requires
        0 <= i < rs.len(),
    ensures
        enc_all(rs.take(i + 1)) == enc_all(rs.take(i)) + rec_enc(rs[i]),
{
    assert(rs.take(i + 1).drop_last() =~= rs.take(i));
    assert(rs.take(i + 1).last() == rs[i]);
}

/// The bytes of any slice of a log are part of the whole log's bytes.
pub proof fn lemma_enc_all_subrange(rs: Seq<RecordData>, a: int, b: int)
    requires
        0 <= a <= b <= rs.len(),
    ensures
        enc_all(rs.take(b)) == enc_all(rs.take(a)) + enc_all(rs.subrange(a, b)),
        enc_all(rs.subrange(a, b)).len() <= enc_all(rs).len(),
{
    assert(rs.take(a) + rs.subrange(a, b) =~= rs.take(b));
    lemma_enc_all_concat(rs.take(a), rs.subrange(a, b));
    lemma_enc_all_split(rs, b);
}

/// Strictly inside the log, the cursor is strictly before the end: every
/// record encoding is at least a header long.
pub proof fn lemma_enc_all_take_lt(rs: Seq<RecordData>, i: int)
    requires
        0 <= i < rs.len(),
    ensures
        enc_all(rs.take(i)).len() + rs[i].enc_len() <= enc_all(rs).len(),
        enc_all(rs.take(i)).len() < enc_all(rs).len(),
        rs[i].enc_len() >= 12,
{
    lemma_enc_all_split(rs, i + 1);
    lemma_enc_all_take_succ(rs, i);
    crate::codec::lemma_enc_len(rs[i]);
}

/// The byte image of a single record is its encoding.
pub proof fn lemma_enc_all_singleton(r: RecordData)
    ensures
        enc_all(seq![r]) == rec_enc(r),
{
    assert(seq![r].drop_last() =~= Seq::<RecordData>::empty());
    assert(seq![r].last() == r);
    assert(enc_all(Seq::<RecordData>::empty()) == Seq::<u8>::empty());
    assert(Seq::<u8>::empty() + rec_enc(r) =~= rec_enc(r));
}

/// Appending a record extends the byte image by its encoding.
pub proof fn lemma_enc_all_push(rs: Seq<RecordData>, r: RecordData)
    ensures
        enc_all(rs.push(r)) == enc_all(rs) + rec_enc(r),
{
    assert(rs.push(r).drop_last() =~= rs);
    assert(rs.push(r).last() == r);
}

/// Appending one record to a log updates the denoted mapping pointwise:
/// an insertion binds its key, a tombstone unbinds it.
pub proof fn lemma_replay_push(rs: Seq<RecordData>, r: RecordData)
    ensures
        (match r {
            RecordData::Insert { key, val } => replay(rs.push(r)) == replay(rs).insert(key, val),
            RecordData::Remove { key } => replay(rs.push(r)) == replay(rs).remove(key),
        }),
{
    assert(rs.push(r).drop_last() =~= rs);
    assert(rs.push(r).last() == r);
}

/// Projection of the empty log is empty.
pub proof fn lemma_proj_empty(k: Seq<u8>)
    ensures
        proj(Seq::empty(), k) == Seq::<RecordData>::empty(),
{
    reveal(Seq::filter);
}

/// Projection after appending one record: the record joins exactly the
/// history of its own key.
pub proof fn lemma_proj_push(rs: Seq<RecordData>, k: Seq<u8>, r: RecordData)
    ensures
        proj(rs.push(r), k) == (if r.key() == k {
            proj(rs, k).push(r)
        } else {
            proj(rs, k)
        }),
{
    reveal(Seq::filter);
    assert(rs.push(r).drop_last() =~= rs);
    assert(rs.push(r).last() == r);
}

/// Projection distributes over concatenation of logs.
pub proof fn lemma_proj_concat(a: Seq<RecordData>, b: Seq<RecordData>, k: Seq<u8>)
    ensures
        proj(a + b, k) == proj(a, k) + proj(b, k),
{
    Seq::filter_distributes_over_add(a, b, key_is(k));
}

/// Projection of a single record.
pub proof fn lemma_proj_singleton(r: RecordData, k: Seq<u8>)
    ensures
        proj(seq![r], k) == (if r.key() == k {
            seq![r]
        } else {
            Seq::<RecordData>::empty()
        }),
{
    reveal(Seq::filter);
    assert(seq![r].drop_last() =~= Seq::<RecordData>::empty());
    assert(Seq::<RecordData>::empty().filter(key_is(k)) =~= Seq::<RecordData>::empty());
    assert(seq![r].last() == r);
}

/// A log without any record of key `k` has an empty history for `k`.
pub proof fn lemma_proj_none(rs: Seq<RecordData>, k: Seq<u8>)
    requires
        forall|i: int| 0 <= i < rs.len() ==> (#[trigger] rs[i]).key() != k,
    ensures
        proj(rs, k) == Seq::<RecordData>::empty(),
    decreases rs.len(),
{
    if rs.len() == 0 {
        lemma_proj_empty(k);
    } else {
        let rs0 = rs.drop_last();
        lemma_proj_none(rs0, k);
        lemma_proj_push(rs0, k, rs.last());
        assert(rs0.push(rs.last()) =~= rs);
        assert(rs.last().key() != k);
    }
}

/// A log without any record of key `k` leaves `k` unbound.
pub proof fn lemma_replay_none(rs: Seq<RecordData>, k: Seq<u8>)
    requires
        forall|i: int| 0 <= i < rs.len() ==> (#[trigger] rs[i]).key() != k,
    ensures
        !replay(rs).contains_key(k),
    decreases rs.len(),
{
    if rs.len() > 0 {
        lemma_replay_none(rs.drop_last(), k);
        assert(rs.last().key() != k);
    }
}

/// The mapping a log denotes is decided, key by key, by the last record of
/// that key's history: a final insertion binds the key to its value, a
/// final tombstone or an empty history leaves it unbound.
pub proof fn lemma_replay_last_write(rs: Seq<RecordData>, k: Seq<u8>)
    ensures
        (match last_write(proj(rs, k)) {
            Some(v) => replay(rs).contains_key(k) && replay(rs)[k] == v,
            None => !replay(rs).contains_key(k),
        }),
    decreases rs.len(),
{
    if rs.len() == 0 {
        lemma_proj_empty(k);
    } else {
        let rs0 = rs.drop_last();
        let r = rs.last();
        lemma_replay_last_write(rs0, k);
        lemma_proj_push(rs0, k, r);
        assert(rs0.push(r) =~= rs);
    }
}

} // verus!
