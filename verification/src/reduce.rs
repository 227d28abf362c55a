//! The reduce pipeline: split the active log into bounded, key-sorted
//! chunks, then k-way merge the chunks back into a fresh log, collapsing
//! each key's history to its last write and dropping tombstoned keys.
//!
//! Correctness rests on one idea: both passes preserve, for every key,
//! that key's history in log order ([`crate::model::proj`]).  The split
//! pass cuts the log into runs and sorts each run by key with a sort that
//! never reorders equal keys; the merge pass takes the smallest available
//! key first and breaks ties by the smallest chunk index, which is the
//! earliest log position.  The collapser then keeps exactly the last
//! record of each history.

use vstd::prelude::*;
use vstd::slice::slice_to_vec;

use crate::bytes::{
    bytes_eq, bytes_le, bytes_lt, lemma_lex_le_lt_trans, lemma_lex_le_refl, lemma_lex_le_trans,
    lemma_lex_lt_complement, lemma_lex_lt_le_trans, lex_le, lex_lt,
};
use crate::file::{FileId, IndexEntry, StoreFile};
use crate::index::Index;
use crate::model::{
    all_inserts, all_valid, enc_all, last_write, lemma_enc_all_push, lemma_proj_concat,
    lemma_proj_empty,
    lemma_proj_none, lemma_proj_push, lemma_proj_singleton, lemma_replay_none, lemma_replay_push,
    proj, replay, sorted_by_key, strictly_sorted_by_key, views_of,
};
use crate::codec::rec_enc;
use crate::record::{Record, RecordData};

verus! {

broadcast use crate::model::lemma_views_of_len, crate::model::lemma_views_of_index;

/// What a chunk still holds beyond its cursor.
pub(crate) open spec fn chunk_rem(f: StoreFile) -> Seq<RecordData> {
    f.records().skip(f.cursor())
}

/// Two log files in the same abstract reading state: same records, same
/// position, same identity.
pub(crate) open spec fn same_stream(a: StoreFile, b: StoreFile) -> bool {
    &&& a.records() == b.records()
    &&& a.cursor() == b.cursor()
    &&& a.id() == b.id()
    &&& a.bytes() == b.bytes()
}

/// Whether a chunk still has a record to offer.
pub(crate) open spec fn avail(f: StoreFile) -> bool {
    f.cursor() < f.records().len()
}

/// The key of the record under a chunk's cursor.
pub(crate) open spec fn next_key(f: StoreFile) -> Seq<u8> {
    f.records()[f.cursor()].key()
}

/// The history of key `k` across whole chunks, in chunk order.
pub(crate) open spec fn chunks_proj(chunks: Seq<StoreFile>, k: Seq<u8>) -> Seq<RecordData>
    decreases chunks.len(),
{
    if chunks.len() == 0 {
        Seq::empty()
    } else {
        chunks_proj(chunks.drop_last(), k) + proj(chunks.last().records(), k)
    }
}

/// The history of key `k` across what the chunks still hold.
pub(crate) open spec fn rem_proj(chunks: Seq<StoreFile>, k: Seq<u8>) -> Seq<RecordData>
    decreases chunks.len(),
{
    if chunks.len() == 0 {
        Seq::empty()
    } else {
        rem_proj(chunks.drop_last(), k) + proj(chunk_rem(chunks.last()), k)
    }
}

/// How many records the chunks still hold in total.
pub(crate) open spec fn rem_count(chunks: Seq<StoreFile>) -> int
    decreases chunks.len(),
{
    if chunks.len() == 0 {
        0
    } else {
        rem_count(chunks.drop_last()) + chunks.last().records().len() - chunks.last().cursor()
    }
}

/// The index `m` describes log file `f` exactly: it binds the keys the
/// log binds, and each entry points at the byte range of that key's
/// current value.
pub(crate) open spec fn index_tracks(m: Map<Seq<u8>, IndexEntry>, f: StoreFile) -> bool {
    &&& m.dom() == replay(f.records()).dom()
    &&& forall|k: Seq<u8>| #[trigger] m.contains_key(k) ==> {
        let e = m[k];
        &&& e.file == f.id()
        &&& e.offset + e.length <= f.bytes().len()
        &&& replay(f.records()).contains_key(k)
        &&& f.bytes().subrange(e.offset as int, e.offset + e.length) == replay(f.records())[k]
    }
}

/// What the collapser holds back for the key group still open: the last
/// record's value if it was an insertion, nothing if it was a tombstone.
pub(crate) open spec fn pending(fed: Seq<RecordData>) -> Seq<RecordData> {
    if fed.len() == 0 {
        Seq::empty()
    } else {
        match fed.last() {
            RecordData::Insert { key, val } => seq![RecordData::Insert { key, val }],
            RecordData::Remove { .. } => Seq::empty(),
        }
    }
}

/// What the collapser has written out after being fed `fed`: one record
/// per completed key group that ended in an insertion.
pub(crate) open spec fn emitted(fed: Seq<RecordData>) -> Seq<RecordData>
    decreases fed.len(),
{
    if fed.len() <= 1 {
        Seq::empty()
    } else if fed.last().key() == fed[fed.len() - 2].key() {
        emitted(fed.drop_last())
    } else {
        emitted(fed.drop_last()) + pending(fed.drop_last())
    }
}

/// The full output of the collapser once the stream ends: what it wrote,
/// plus the held-back record of the last group.
pub(crate) open spec fn collapsed(fed: Seq<RecordData>) -> Seq<RecordData> {
    emitted(fed) + pending(fed)
}

proof fn lemma_chunks_proj_push(chunks: Seq<StoreFile>, f: StoreFile, k: Seq<u8>)
    ensures
        chunks_proj(chunks.push(f), k) == chunks_proj(chunks, k) + proj(f.records(), k),
{
    assert(chunks.push(f).drop_last() =~= chunks);
    assert(chunks.push(f).last() == f);
}

proof fn lemma_rem_proj_concat(a: Seq<StoreFile>, b: Seq<StoreFile>, k: Seq<u8>)
    ensures
        rem_proj(a + b, k) == rem_proj(a, k) + rem_proj(b, k),
    decreases b.len(),
{
    if b.len() == 0 {
        assert(a + b =~= a);
        assert(rem_proj(a, k) + rem_proj(b, k) =~= rem_proj(a, k));
    } else {
        lemma_rem_proj_concat(a, b.drop_last(), k);
        assert((a + b).drop_last() =~= a + b.drop_last());
        assert((a + b).last() == b.last());
        assert(rem_proj(a, k) + rem_proj(b.drop_last(), k) + proj(chunk_rem(b.last()), k)
            =~= rem_proj(a, k) + rem_proj(b, k));
    }
}

proof fn lemma_rem_proj_congruent(a: Seq<StoreFile>, b: Seq<StoreFile>, k: Seq<u8>)
    requires
        a.len() == b.len(),
        forall|c: int|
            0 <= c < a.len() ==> (#[trigger] a[c]).records() == b[c].records() && a[c].cursor()
                == b[c].cursor(),
    ensures
        rem_proj(a, k) == rem_proj(b, k),
    decreases a.len(),
{
    if a.len() > 0 {
        assert(forall|c: int|
            0 <= c < a.len() - 1 ==> a.drop_last()[c] == a[c] && b.drop_last()[c] == b[c]);
        lemma_rem_proj_congruent(a.drop_last(), b.drop_last(), k);
        assert(a.last() == a[a.len() - 1] && b.last() == b[a.len() - 1]);
        assert(chunk_rem(a.last()) == chunk_rem(b.last()));
    }
}

proof fn lemma_rem_count_concat(a: Seq<StoreFile>, b: Seq<StoreFile>)
    ensures
        rem_count(a + b) == rem_count(a) + rem_count(b),
    decreases b.len(),
{
    if b.len() == 0 {
        assert(a + b =~= a);
    } else {
        lemma_rem_count_concat(a, b.drop_last());
        assert((a + b).drop_last() =~= a + b.drop_last());
        assert((a + b).last() == b.last());
    }
}

proof fn lemma_rem_count_congruent(a: Seq<StoreFile>, b: Seq<StoreFile>)
    requires
        a.len() == b.len(),
        forall|c: int|
            0 <= c < a.len() ==> (#[trigger] a[c]).records() == b[c].records() && a[c].cursor()
                == b[c].cursor(),
    ensures
        rem_count(a) == rem_count(b),
    decreases a.len(),
{
    if a.len() > 0 {
        assert(forall|c: int|
            0 <= c < a.len() - 1 ==> a.drop_last()[c] == a[c] && b.drop_last()[c] == b[c]);
        lemma_rem_count_congruent(a.drop_last(), b.drop_last());
        assert(a.last() == a[a.len() - 1] && b.last() == b[a.len() - 1]);
    }
}

proof fn lemma_rem_proj_at_start(chunks: Seq<StoreFile>, k: Seq<u8>)
    requires
        forall|c: int| 0 <= c < chunks.len() ==> (#[trigger] chunks[c]).cursor() == 0,
    ensures
        rem_proj(chunks, k) == chunks_proj(chunks, k),
    decreases chunks.len(),
{
    if chunks.len() > 0 {
        assert(forall|c: int| 0 <= c < chunks.len() - 1 ==> chunks.drop_last()[c] == chunks[c]);
        lemma_rem_proj_at_start(chunks.drop_last(), k);
        assert(chunks.last() == chunks[chunks.len() - 1]);
        assert(chunk_rem(chunks.last()) =~= chunks.last().records());
    }
}

proof fn lemma_rem_proj_all_empty(chunks: Seq<StoreFile>, k: Seq<u8>)
    requires
        forall|c: int|
            0 <= c < chunks.len() ==> proj(chunk_rem(#[trigger] chunks[c]), k)
                == Seq::<RecordData>::empty(),
    ensures
        rem_proj(chunks, k) == Seq::<RecordData>::empty(),
    decreases chunks.len(),
{
    if chunks.len() > 0 {
        assert(forall|c: int| 0 <= c < chunks.len() - 1 ==> chunks.drop_last()[c] == chunks[c]);
        lemma_rem_proj_all_empty(chunks.drop_last(), k);
        assert(chunks.last() == chunks[chunks.len() - 1]);
        assert(rem_proj(chunks.drop_last(), k) + proj(chunk_rem(chunks.last()), k)
            =~= Seq::<RecordData>::empty());
    }
}

proof fn lemma_rem_proj_singleton(f: StoreFile, k: Seq<u8>)
    ensures
        rem_proj(seq![f], k) == proj(chunk_rem(f), k),
        rem_count(seq![f]) == f.records().len() - f.cursor(),
{
    assert(seq![f].drop_last() =~= Seq::<StoreFile>::empty());
    assert(seq![f].last() == f);
    assert(rem_count(Seq::<StoreFile>::empty()) == 0);
    assert(rem_proj(Seq::<StoreFile>::empty(), k) == Seq::<RecordData>::empty());
    assert(Seq::<RecordData>::empty() + proj(chunk_rem(f), k) =~= proj(chunk_rem(f), k));
}

/// One record is consumed from chunk `i`: the total count drops by one;
/// histories of other keys are untouched; and if no earlier chunk still
/// holds the consumed record's key, that key's remaining history loses
/// exactly its head.
proof fn lemma_consume(pre: Seq<StoreFile>, post: Seq<StoreFile>, i: int, k: Seq<u8>)
    requires
        0 <= i < pre.len(),
        post.len() == pre.len(),
        forall|c: int|
            0 <= c < pre.len() && c != i ==> (#[trigger] post[c]).records() == pre[c].records()
                && post[c].cursor() == pre[c].cursor(),
        post[i].records() == pre[i].records(),
        post[i].cursor() == pre[i].cursor() + 1,
        0 <= pre[i].cursor(),
        avail(pre[i]),
    ensures
        rem_count(post) == rem_count(pre) - 1,
        next_key(pre[i]) != k ==> rem_proj(post, k) == rem_proj(pre, k),
        (next_key(pre[i]) == k && (forall|c: int|
            0 <= c < i ==> proj(chunk_rem(#[trigger] pre[c]), k) == Seq::<RecordData>::empty()))
            ==> rem_proj(pre, k) == seq![pre[i].records()[pre[i].cursor()]] + rem_proj(post, k),
{
    let rec = pre[i].records()[pre[i].cursor()];
    assert(pre =~= (pre.take(i) + seq![pre[i]]) + pre.skip(i + 1));
    assert(post =~= (post.take(i) + seq![post[i]]) + post.skip(i + 1));
    lemma_rem_proj_concat(pre.take(i) + seq![pre[i]], pre.skip(i + 1), k);
    lemma_rem_proj_concat(pre.take(i), seq![pre[i]], k);
    lemma_rem_proj_concat(post.take(i) + seq![post[i]], post.skip(i + 1), k);
    lemma_rem_proj_concat(post.take(i), seq![post[i]], k);
    lemma_rem_proj_singleton(pre[i], k);
    lemma_rem_proj_singleton(post[i], k);
    lemma_rem_count_concat(pre.take(i) + seq![pre[i]], pre.skip(i + 1));
    lemma_rem_count_concat(pre.take(i), seq![pre[i]]);
    lemma_rem_count_concat(post.take(i) + seq![post[i]], post.skip(i + 1));
    lemma_rem_count_concat(post.take(i), seq![post[i]]);
    assert(post.take(i).len() == pre.take(i).len() && forall|c: int|
        0 <= c < pre.take(i).len() ==> (#[trigger] post.take(i)[c]).records()
            == pre.take(i)[c].records() && post.take(i)[c].cursor() == pre.take(i)[c].cursor());
    assert(post.skip(i + 1).len() == pre.skip(i + 1).len() && forall|c: int|
        0 <= c < pre.skip(i + 1).len() ==> (#[trigger] post.skip(i + 1)[c]).records() == pre.skip(
            i + 1,
        )[c].records() && post.skip(i + 1)[c].cursor() == pre.skip(i + 1)[c].cursor());
    lemma_rem_proj_congruent(post.take(i), pre.take(i), k);
    lemma_rem_proj_congruent(post.skip(i + 1), pre.skip(i + 1), k);
    lemma_rem_count_congruent(post.take(i), pre.take(i));
    lemma_rem_count_congruent(post.skip(i + 1), pre.skip(i + 1));
    // the consumed chunk's remainder loses exactly its head
    let cur = pre[i].cursor();
    let rs = pre[i].records();
    assert(chunk_rem(pre[i]) == rs.skip(cur));
    assert(chunk_rem(post[i]) == rs.skip(cur + 1));
    assert(rs.skip(cur) =~= seq![rs[cur]] + rs.skip(cur + 1));
    assert(chunk_rem(pre[i]) == seq![rec] + chunk_rem(post[i]));
    lemma_proj_concat(seq![rec], chunk_rem(post[i]), k);
    lemma_proj_singleton(rec, k);
    if next_key(pre[i]) == k && (forall|c: int|
        0 <= c < i ==> proj(chunk_rem(#[trigger] pre[c]), k) == Seq::<RecordData>::empty()) {
        assert(forall|c: int|
            0 <= c < pre.take(i).len() ==> proj(chunk_rem(#[trigger] pre.take(i)[c]), k)
                == Seq::<RecordData>::empty());
        lemma_rem_proj_all_empty(pre.take(i), k);
        assert(rem_proj(pre, k) =~= seq![rec] + rem_proj(post, k));
    }
    if next_key(pre[i]) != k {
        assert(rem_proj(post, k) =~= rem_proj(pre, k));
    }
}

/// Once a key-sorted stream ends, the collapser's output holds only
/// insertions, with strictly ascending keys, and binds each key to
/// exactly the last write of that key's history in the stream.
proof fn lemma_collapsed_props(fed: Seq<RecordData>)
    requires
        sorted_by_key(fed),
    ensures
        all_inserts(collapsed(fed)),
        strictly_sorted_by_key(collapsed(fed)),
        all_valid(fed) ==> all_valid(collapsed(fed)),
        forall|i: int|
            0 <= i < emitted(fed).len() ==> fed.len() > 0 && lex_lt(
                (#[trigger] emitted(fed)[i]).key(),
                fed.last().key(),
            ),
        forall|i: int|
            0 <= i < collapsed(fed).len() ==> fed.len() > 0 && lex_le(
                (#[trigger] collapsed(fed)[i]).key(),
                fed.last().key(),
            ),
        forall|k: Seq<u8>|
            #![trigger proj(fed, k)]
            (match last_write(proj(fed, k)) {
                Some(v) => replay(collapsed(fed)).contains_key(k) && replay(collapsed(fed))[k]
                    == v,
                None => !replay(collapsed(fed)).contains_key(k),
            }),
    decreases fed.len(),
{
    let co = collapsed(fed);
    if fed.len() == 0 {
        assert(co =~= Seq::<RecordData>::empty());
        assert forall|k: Seq<u8>|
            #![trigger proj(fed, k)]
            (match last_write(proj(fed, k)) {
                Some(v) => replay(co).contains_key(k) && replay(co)[k] == v,
                None => !replay(co).contains_key(k),
            }) by {
            assert(fed =~= Seq::<RecordData>::empty());
            lemma_proj_empty(k);
        }
    } else if fed.len() == 1 {
        let r = fed.last();
        assert(emitted(fed) == Seq::<RecordData>::empty());
        assert(co =~= pending(fed));
        lemma_lex_le_refl(r.key());
        assert forall|k: Seq<u8>|
            #![trigger proj(fed, k)]
            (match last_write(proj(fed, k)) {
                Some(v) => replay(co).contains_key(k) && replay(co)[k] == v,
                None => !replay(co).contains_key(k),
            }) by {
            assert(fed =~= seq![r]);
            lemma_proj_singleton(r, k);
            match r {
                RecordData::Insert { key, val } => {
                    let ins = RecordData::Insert { key, val };
                    assert(co =~= Seq::<RecordData>::empty().push(ins));
                    lemma_replay_push(Seq::<RecordData>::empty(), ins);
                    if k == key {
                        assert(proj(fed, k) == seq![r]);
                        assert(replay(co) == Map::<Seq<u8>, Seq<u8>>::empty().insert(key, val));
                    } else {
                        assert(proj(fed, k) == Seq::<RecordData>::empty());
                        assert(!replay(co).contains_key(k));
                    }
                },
                RecordData::Remove { key } => {
                    assert(co =~= Seq::<RecordData>::empty());
                    assert(!replay(co).contains_key(k));
                },
            }
        }
    } else {
        let fed0 = fed.drop_last();
        let r = fed.last();
        let prev = fed0.last();
        assert(forall|i: int| 0 <= i < fed0.len() ==> fed0[i] == fed[i]);
        assert(sorted_by_key(fed0));
        lemma_collapsed_props(fed0);
        let co0 = collapsed(fed0);
        let em0 = emitted(fed0);
        let pe0 = pending(fed0);
        assert(fed[fed.len() - 2] == prev);
        assert(fed0.push(r) =~= fed);
        // the two adjacent records are in order
        assert(lex_le(prev.key(), r.key()));
        // prefix facts about the previous output
        assert(forall|i: int| 0 <= i < em0.len() ==> co0[i] == em0[i]);
        assert(pe0.len() > 0 ==> co0[em0.len() as int] == pe0[0] && pe0[0].key() == prev.key()
            && pe0[0] is Insert);
        if r.key() == prev.key() {
            assert(emitted(fed) == em0);
            assert(co == em0 + pending(fed));
            assert(pending(fed).len() > 0 ==> pending(fed)[0].key() == r.key() && pending(
                fed,
            )[0] is Insert);
            assert forall|i: int| 0 <= i < co.len() implies lex_le(
                (#[trigger] co[i]).key(),
                r.key(),
            ) by {
                if i < em0.len() {
                    assert(co[i] == em0[i]);
                } else {
                    assert(co[i] == pending(fed)[i - em0.len()]);
                    lemma_lex_le_refl(r.key());
                }
            }
            assert forall|k: Seq<u8>|
                #![trigger proj(fed, k)]
                (match last_write(proj(fed, k)) {
                    Some(v) => replay(co).contains_key(k) && replay(co)[k] == v,
                    None => !replay(co).contains_key(k),
                }) by {
                lemma_proj_push(fed0, k, r);
                lemma_collapsed_step(em0, pending(fed), k);
                lemma_collapsed_step(em0, pe0, k);
                if k == r.key() {
                    assert(forall|i: int|
                        0 <= i < em0.len() ==> (#[trigger] em0[i]).key() != k);
                    lemma_replay_none(em0, k);
                } else {
                    assert(last_write(proj(fed, k)) == last_write(proj(fed0, k)));
                }
            }
        } else {
            assert(lex_lt(prev.key(), r.key()));
            assert(emitted(fed) == em0 + pe0);
            assert(emitted(fed) == co0);
            assert(co == co0 + pending(fed));
            // every key already written is strictly below the new group's key
            assert forall|i: int| 0 <= i < co0.len() implies lex_lt(
                (#[trigger] co0[i]).key(),
                r.key(),
            ) by {
                lemma_lex_le_lt_trans(co0[i].key(), prev.key(), r.key());
            }
            assert forall|i: int| 0 <= i < co.len() implies lex_le(
                (#[trigger] co[i]).key(),
                r.key(),
            ) by {
                if i < co0.len() {
                    assert(co[i] == co0[i]);
                } else {
                    assert(co[i] == pending(fed)[i - co0.len()]);
                    lemma_lex_le_refl(r.key());
                }
            }
            assert forall|k: Seq<u8>|
                #![trigger proj(fed, k)]
                (match last_write(proj(fed, k)) {
                    Some(v) => replay(co).contains_key(k) && replay(co)[k] == v,
                    None => !replay(co).contains_key(k),
                }) by {
                lemma_proj_push(fed0, k, r);
                lemma_collapsed_step(co0, pending(fed), k);
                if k == r.key() {
                    assert forall|i: int| 0 <= i < fed0.len() implies (#[trigger] fed0[i]).key()
                        != k by {
                        if fed0[i].key() == k {
                            assert(lex_le(fed0[i].key(), prev.key()));
                            lemma_lex_le_lt_trans(fed0[i].key(), prev.key(), r.key());
                        }
                    }
                    lemma_proj_none(fed0, k);
                    assert(proj(fed, k) == Seq::<RecordData>::empty().push(r));
                    assert(proj(fed, k).last() == r);
                    assert(forall|i: int|
                        0 <= i < co0.len() ==> (#[trigger] co0[i]).key() != k);
                    lemma_replay_none(co0, k);
                } else {
                    assert(last_write(proj(fed, k)) == last_write(proj(fed0, k)));
                }
            }
            // strict sortedness across the boundary
            assert forall|i: int, j: int| 0 <= i < j < co.len() implies lex_lt(
                (#[trigger] co[i]).key(),
                (#[trigger] co[j]).key(),
            ) by {
                if j < co0.len() {
                } else {
                    assert(co[j] == pending(fed)[j - co0.len()]);
                    assert(co[j].key() == r.key());
                }
            }
        }
    }
}

/// How the replay of `base + extra` relates to the replay of `base`, for
/// an `extra` that is empty or one insertion — the two shapes a pending
/// group can take.
proof fn lemma_collapsed_step(base: Seq<RecordData>, extra: Seq<RecordData>, k: Seq<u8>)
    requires
        extra.len() == 0 || (extra.len() == 1 && extra[0] is Insert),
    ensures
        extra.len() == 0 ==> replay(base + extra) == replay(base),
        extra.len() == 1 ==> replay(base + extra) == replay(base).insert(
            extra[0].key(),
            extra[0]->Insert_val,
        ),
{
    if extra.len() == 0 {
        assert(base + extra =~= base);
    } else {
        assert(base + extra =~= base.push(extra[0]));
        lemma_replay_push(base, extra[0]);
    }
}

proof fn lemma_emitted_push(fed: Seq<RecordData>, r: RecordData)
    requires
        fed.len() > 0,
    ensures
        emitted(fed.push(r)) == (if r.key() == fed.last().key() {
            emitted(fed)
        } else {
            emitted(fed) + pending(fed)
        }),
{
    let t = fed.push(r);
    assert(t.drop_last() =~= fed);
    assert(t.last() == r);
    assert(t[t.len() - 2] == fed.last());
}

proof fn lemma_rem_count_nonneg(chunks: Seq<StoreFile>)
    requires
        forall|c: int|
            0 <= c < chunks.len() ==> (#[trigger] chunks[c]).cursor()
                <= chunks[c].records().len(),
    ensures
        rem_count(chunks) >= 0,
    decreases chunks.len(),
{
    if chunks.len() > 0 {
        assert(forall|c: int| 0 <= c < chunks.len() - 1 ==> chunks.drop_last()[c] == chunks[c]);
        lemma_rem_count_nonneg(chunks.drop_last());
        assert(chunks.last() == chunks[chunks.len() - 1]);
    }
}

/// Sort a run of records by key, never reordering two records of equal
/// keys: each key's history is preserved exactly.
fn sort_records(input: Vec<Record>) -> (r: Vec<Record>)
    ensures
        sorted_by_key(views_of(r@)),
        forall|k: Seq<u8>|
            #![trigger proj(views_of(r@), k)]
            proj(views_of(r@), k) == proj(views_of(input@), k),
        all_valid(views_of(input@)) ==> all_valid(views_of(r@)),
        r@.len() == input@.len(),
        enc_all(views_of(r@)).len() == enc_all(views_of(input@)).len(),
{
    let ghost inp = input@;
    let ghost orig = views_of(input@);
    let mut rest = input;
    let mut out: Vec<Record> = Vec::new();
    proof {
        assert(rest@ =~= rest@.take(rest@.len() as int));
        assert(views_of(out@) =~= Seq::<RecordData>::empty());
        assert(orig.skip(rest@.len() as int) =~= Seq::<RecordData>::empty());
        assert forall|k: Seq<u8>| #[trigger]
            proj(views_of(out@), k) == proj(orig.skip(rest@.len() as int), k) by {
            lemma_proj_empty(k);
        }
    }
    loop
        invariant
            rest@.len() <= inp.len(),
            rest@ == inp.take(rest@.len() as int),
            sorted_by_key(views_of(out@)),
            forall|k: Seq<u8>| #[trigger]
                proj(views_of(out@), k) == proj(orig.skip(rest@.len() as int), k),
            all_valid(orig) ==> all_valid(views_of(out@)),
            orig == views_of(inp),
            out@.len() + rest@.len() == inp.len(),
            enc_all(views_of(out@)).len() == enc_all(orig.skip(rest@.len() as int)).len(),
        ensures
            rest@.len() == 0,
            sorted_by_key(views_of(out@)),
            forall|k: Seq<u8>| #[trigger]
                proj(views_of(out@), k) == proj(orig.skip(rest@.len() as int), k),
            all_valid(orig) ==> all_valid(views_of(out@)),
            out@.len() == inp.len(),
            enc_all(views_of(out@)).len() == enc_all(orig.skip(rest@.len() as int)).len(),
        decreases rest@.len(),
    {
        let ghost n = rest@.len() as int;
        let rec = match rest.pop() {
            Some(rec) => rec,
            None => {
                break ;
            },
        };
        let ghost rv = rec@;
        proof {
            assert(n > 0);
            assert(rest@.len() == n - 1);
            assert(rest@ == inp.take(n).subrange(0, n - 1));
            assert(rest@ =~= inp.take(n - 1));
            assert(rec == inp[n - 1]);
            assert(rv == orig[n - 1]);
            assert(orig.skip(n - 1) =~= seq![rv] + orig.skip(n));
        }
        let mut p: usize = 0;
        loop
            invariant
                rec@ == rv,
                p <= out@.len(),
                forall|q: int|
                    0 <= q < p ==> lex_lt((#[trigger] views_of(out@)[q]).key(), rv.key()),
            ensures
                p <= out@.len(),
                forall|q: int|
                    0 <= q < p ==> lex_lt((#[trigger] views_of(out@)[q]).key(), rv.key()),
                p < out@.len() ==> lex_le(rv.key(), views_of(out@)[p as int].key()),
            decreases out@.len() - p,
        {
            if p >= out.len() {
                break ;
            }
            let cand = &out[p];
            proof {
                crate::model::lemma_views_of_index(out@, p as int);
                assert(cand@ == views_of(out@)[p as int]);
            }
            if bytes_le(rec.key(), cand.key()) {
                break ;
            }
            proof {
                lemma_lex_lt_complement(views_of(out@)[p as int].key(), rv.key());
            }
            p += 1;
        }
        let ghost ov = views_of(out@);
        out.insert(p, rec);
        proof {
            let pi = p as int;
            let nv = views_of(out@);
            assert(nv =~= ov.take(pi) + seq![rv] + ov.skip(pi)) by {
                assert(out@ == out@.subrange(0, pi + 1 + (ov.len() - pi)));
                assert(forall|x: int| 0 <= x < nv.len() ==> nv[x] == out@[x]@);
            }
            assert(ov =~= ov.take(pi) + ov.skip(pi));
            // sortedness around the insertion point
            assert forall|i: int, j: int| 0 <= i < j < nv.len() implies lex_le(
                (#[trigger] nv[i]).key(),
                (#[trigger] nv[j]).key(),
            ) by {
                if i < pi && j == pi {
                    assert(nv[i] == ov[i] && nv[j] == rv);
                } else if i < pi && j > pi {
                    assert(nv[i] == ov[i] && nv[j] == ov[j - 1]);
                    if i == j - 1 {
                        assert(lex_lt(ov[i].key(), rv.key()));
                        assert(lex_le(rv.key(), ov[j - 1].key()));
                        lemma_lex_lt_le_trans(ov[i].key(), rv.key(), ov[j - 1].key());
                    }
                } else if i == pi {
                    assert(nv[i] == rv && nv[j] == ov[j - 1]);
                    assert(lex_le(rv.key(), ov[pi].key()));
                    if j - 1 > pi {
                        lemma_lex_le_trans(rv.key(), ov[pi].key(), ov[j - 1].key());
                    }
                } else if i > pi {
                    assert(nv[i] == ov[i - 1] && nv[j] == ov[j - 1]);
                } else {
                    assert(nv[i] == ov[i] && nv[j] == ov[j]);
                }
            }
            // each key's history gains exactly its new earliest record
            assert forall|k: Seq<u8>| #[trigger]
                proj(views_of(out@), k) == proj(orig.skip(rest@.len() as int), k) by {
                lemma_proj_concat(ov.take(pi) + seq![rv], ov.skip(pi), k);
                lemma_proj_concat(ov.take(pi), seq![rv], k);
                lemma_proj_concat(ov.take(pi), ov.skip(pi), k);
                lemma_proj_singleton(rv, k);
                lemma_proj_concat(seq![rv], orig.skip(n), k);
                if k == rv.key() {
                    assert forall|q: int| 0 <= q < ov.take(pi).len() implies (#[trigger] ov.take(
                        pi,
                    )[q]).key() != k by {
                        assert(ov.take(pi)[q] == ov[q]);
                        assert(lex_lt(ov[q].key(), rv.key()));
                    }
                    lemma_proj_none(ov.take(pi), k);
                    assert(proj(nv, k) =~= seq![rv] + proj(ov, k));
                    assert(proj(orig.skip(n - 1), k) =~= seq![rv] + proj(orig.skip(n), k));
                } else {
                    assert(proj(nv, k) =~= proj(ov, k));
                    assert(proj(orig.skip(n - 1), k) =~= proj(orig.skip(n), k));
                }
            }
            assert(all_valid(orig) ==> all_valid(nv)) by {
                if all_valid(orig) {
                    assert(forall|x: int|
                        0 <= x < nv.len() ==> (x < pi ==> #[trigger] nv[x] == ov[x]) && (x == pi
                            ==> nv[x] == rv) && (x > pi ==> nv[x] == ov[x - 1]));
                }
            }
            // byte accounting: the inserted record adds exactly its encoding
            crate::model::lemma_enc_all_concat(ov.take(pi) + seq![rv], ov.skip(pi));
            crate::model::lemma_enc_all_concat(ov.take(pi), seq![rv]);
            crate::model::lemma_enc_all_concat(ov.take(pi), ov.skip(pi));
            crate::model::lemma_enc_all_singleton(rv);
            crate::model::lemma_enc_all_concat(seq![rv], orig.skip(n));
            assert(enc_all(nv).len() == enc_all(ov).len() + rec_enc(rv).len());
            assert(enc_all(orig.skip(n - 1)).len() == rec_enc(rv).len() + enc_all(
                orig.skip(n),
            ).len());
        }
    }
    proof {
        assert(orig.skip(0) =~= orig);
    }
    out
}

/// Write one sorted chunk: sort the buffered run, append every record to
/// a fresh chunk file, and leave the chunk rewound for iteration.
fn dump_chunk(records: Vec<Record>, idx: usize) -> (r: StoreFile)
    requires
        all_valid(views_of(records@)),
    ensures
        r.wf(),
        r.cursor() == 0,
        r.id() == FileId(idx as u64),
        r.records().len() == records@.len(),
        enc_all(r.records()).len() == enc_all(views_of(records@)).len(),
        sorted_by_key(r.records()),
        forall|k: Seq<u8>|
            #![trigger proj(r.records(), k)]
            proj(r.records(), k) == proj(views_of(records@), k),
{
    let sorted = sort_records(records);
    let mut file = StoreFile::make(FileId(idx as u64));
    let mut i: usize = 0;
    proof {
        assert(views_of(sorted@).take(0) =~= Seq::<RecordData>::empty());
    }
    while i < sorted.len()
        invariant
            i <= sorted@.len(),
            file.wf(),
            file.appending(),
            file.id() == FileId(idx as u64),
            file.records() == views_of(sorted@).take(i as int),
            all_valid(views_of(sorted@)),
            sorted_by_key(views_of(sorted@)),
            forall|k: Seq<u8>|
                #![trigger proj(views_of(sorted@), k)]
                proj(views_of(sorted@), k) == proj(views_of(records@), k),
        decreases sorted@.len() - i,
    {
        let rec = &sorted[i];
        proof {
            assert(rec@ == views_of(sorted@)[i as int]);
        }
        match file.exec(rec) {
            Ok(_) => {},
            Err(_) => {
                proof {
                    assert(false);
                }
            },
        }
        proof {
            assert(views_of(sorted@).take(i + 1) =~= views_of(sorted@).take(i as int).push(
                views_of(sorted@)[i as int],
            ));
        }
        i += 1;
    }
    proof {
        assert(views_of(sorted@).take(sorted@.len() as int) =~= views_of(sorted@));
    }
    file.reset();
    file
}

/// Split pass: scan the source log once, cutting it into runs whose
/// encoded size stays near `limit`, and write each run out as a sorted
/// chunk.  Every key's history, concatenated across the chunks in order,
/// is exactly its history in the source log.
pub(crate) fn split(src: &mut StoreFile, limit: usize) -> (chunks: Vec<StoreFile>)
    requires
        old(src).wf(),
    ensures
        final(src).wf(),
        final(src).records() == old(src).records(),
        final(src).bytes() == old(src).bytes(),
        final(src).id() == old(src).id(),
        final(src).cursor() == final(src).records().len(),
        chunks@.len() >= 1,
        forall|c: int|
            0 <= c < chunks@.len() ==> (#[trigger] chunks@[c]).wf() && chunks@[c].cursor() == 0
                && sorted_by_key(chunks@[c].records()) && chunks@[c].id() == FileId(c as u64),
        forall|c: int|
            0 <= c < chunks@.len() ==> enc_all((#[trigger] chunks@[c]).records()).len() <= limit
                || chunks@[c].records().len() <= 1,
        forall|k: Seq<u8>|
            #![trigger chunks_proj(chunks@, k)]
            chunks_proj(chunks@, k) == proj(old(src).records(), k),
{
    src.reset();
    let ghost rs = src.records();
    proof {
        src.lemma_wf_records_valid();
    }
    let total = src.byte_len();
    let mut result: Vec<StoreFile> = Vec::new();
    let mut records: Vec<Record> = Vec::new();
    let mut idx: usize = 0;
    let mut len: usize = 0;
    proof {
        assert(views_of(records@) =~= Seq::<RecordData>::empty());
        assert(rs.take(0) =~= Seq::<RecordData>::empty());
        assert(rs.subrange(0, 0) =~= Seq::<RecordData>::empty());
        assert forall|k: Seq<u8>| #[trigger]
            chunks_proj(result@, k) + proj(views_of(records@), k) == proj(rs.take(src.cursor()), k)
            by {
            lemma_proj_empty(k);
            assert(chunks_proj(result@, k) =~= Seq::<RecordData>::empty());
            assert(Seq::<RecordData>::empty() + Seq::<RecordData>::empty()
                =~= Seq::<RecordData>::empty());
        }
    }
    loop
        invariant
            src.wf(),
            src.records() == rs,
            src.bytes() == old(src).bytes(),
            src.id() == old(src).id(),
            all_valid(rs),
            12 * rs.len() <= total,
            total == src.bytes().len(),
            total == enc_all(rs).len(),
            0 <= src.cursor() <= rs.len(),
            result@.len() <= src.cursor(),
            idx == result@.len(),
            records@.len() <= src.cursor(),
            views_of(records@) == rs.subrange(
                src.cursor() - records@.len(),
                src.cursor(),
            ),
            len == enc_all(views_of(records@)).len(),
            len <= limit || records@.len() <= 1,
            forall|c: int|
                0 <= c < result@.len() ==> (#[trigger] result@[c]).wf() && result@[c].cursor() == 0
                    && sorted_by_key(result@[c].records()) && result@[c].id() == FileId(c as u64),
            forall|c: int|
                0 <= c < result@.len() ==> enc_all((#[trigger] result@[c]).records()).len()
                    <= limit || result@[c].records().len() <= 1,
            forall|k: Seq<u8>| #[trigger]
                chunks_proj(result@, k) + proj(views_of(records@), k) == proj(
                    rs.take(src.cursor()),
                    k,
                ),
        ensures
            src.wf(),
            src.records() == rs,
            src.bytes() == old(src).bytes(),
            src.id() == old(src).id(),
            src.cursor() == rs.len(),
            idx == result@.len(),
            all_valid(views_of(records@)),
            len == enc_all(views_of(records@)).len(),
            len <= limit || records@.len() <= 1,
            forall|c: int|
                0 <= c < result@.len() ==> (#[trigger] result@[c]).wf() && result@[c].cursor() == 0
                    && sorted_by_key(result@[c].records()) && result@[c].id() == FileId(c as u64),
            forall|c: int|
                0 <= c < result@.len() ==> enc_all((#[trigger] result@[c]).records()).len()
                    <= limit || result@[c].records().len() <= 1,
            forall|k: Seq<u8>| #[trigger]
                chunks_proj(result@, k) + proj(views_of(records@), k) == proj(rs, k),
        decreases rs.len() - src.cursor(),
    {
        let ghost c = src.cursor();
        let record = match src.read_record() {
            Ok(record) => record,
            Err(_) => {
                proof {
                    assert(rs.take(rs.len() as int) =~= rs);
                    let start = src.cursor() - records@.len();
                    assert forall|x: int| 0 <= x < views_of(records@).len() implies (
                    #[trigger] views_of(records@)[x]).valid() by {
                        assert(views_of(records@)[x] == rs[start + x]);
                    }
                }
                break ;
            },
        };
        let ghost rv = record@;
        let ghost start = c - records@.len();
        proof {
            assert(rv == rs[c]);
            assert(rv.valid());
            lemma_enc_all_push(views_of(records@), rv);
            crate::codec::lemma_enc_len(rv);
            assert(views_of(records@).push(rv) =~= rs.subrange(start, c + 1));
            crate::model::lemma_enc_all_subrange(rs, start, c + 1);
            assert(len + rv.enc_len() <= total);
        }
        let rlen = record.len();
        if len + rlen > limit {
            let buffer = records;
            records = Vec::new();
            proof {
                assert forall|x: int| 0 <= x < views_of(buffer@).len() implies (
                #[trigger] views_of(buffer@)[x]).valid() by {
                    assert(views_of(buffer@)[x] == rs[start + x]);
                }
            }
            let chunk = dump_chunk(buffer, idx);
            let ghost pre = result@;
            result.push(chunk);
            proof {
                assert(idx + 1 <= rs.len() + 1);
                assert(views_of(records@) =~= Seq::<RecordData>::empty());
                assert forall|k: Seq<u8>| #[trigger]
                    chunks_proj(result@, k) + proj(views_of(records@), k) == proj(rs.take(c), k)
                    by {
                    lemma_chunks_proj_push(pre, chunk, k);
                    assert(result@ == pre.push(chunk));
                    assert(proj(chunk.records(), k) == proj(views_of(buffer@), k));
                    assert(chunks_proj(result@, k) == chunks_proj(pre, k) + proj(
                        views_of(buffer@),
                        k,
                    ));
                    lemma_proj_empty(k);
                    assert(chunks_proj(result@, k) + Seq::<RecordData>::empty() =~= chunks_proj(
                        result@,
                        k,
                    ));
                }
            }
            idx += 1;
            len = 0;
        }
        len += rlen;
        let ghost before = views_of(records@);
        records.push(record);
        proof {
            let cc = src.cursor();
            assert(cc == c + 1);
            assert(views_of(records@) =~= before.push(rv));
            lemma_enc_all_push(before, rv);
            let s2 = cc - records@.len();
            assert(rs.subrange(s2, cc) =~= rs.subrange(s2, c).push(rs[c]));
            assert(views_of(records@) == rs.subrange(s2, cc));
            assert(rs.take(cc) =~= rs.take(c).push(rs[c]));
            assert forall|k: Seq<u8>| #[trigger]
                chunks_proj(result@, k) + proj(views_of(records@), k) == proj(rs.take(cc), k) by {
                lemma_proj_push(before, k, rv);
                lemma_proj_push(rs.take(c), k, rs[c]);
            }
        }
    }
    let ghost buffer = records@;
    let chunk = dump_chunk(records, idx);
    let ghost pre = result@;
    result.push(chunk);
    proof {
        assert forall|k: Seq<u8>| #[trigger] chunks_proj(result@, k) == proj(rs, k) by {
            lemma_chunks_proj_push(pre, chunk, k);
            assert(result@ == pre.push(chunk));
            assert(proj(chunk.records(), k) == proj(views_of(buffer), k));
            assert(chunks_proj(pre, k) + proj(views_of(buffer), k) == proj(rs, k));
        }
    }
    result
}

/// Choose the chunk to draw from next: the one whose next record has the
/// smallest key, ties broken by the smallest chunk index — which is the
/// earliest original log position.  `None` once every chunk is exhausted.
fn pick(srcs: &mut Vec<StoreFile>) -> (r: Option<usize>)
    requires
        forall|c: int| 0 <= c < old(srcs)@.len() ==> (#[trigger] old(srcs)@[c]).wf(),
    ensures
        final(srcs)@.len() == old(srcs)@.len(),
        forall|c: int|
            0 <= c < old(srcs)@.len() ==> (#[trigger] final(srcs)@[c]).wf() && same_stream(
                old(srcs)@[c],
                final(srcs)@[c],
            ),
        (match r {
            None => forall|c: int| 0 <= c < old(srcs)@.len() ==> !avail(#[trigger] old(srcs)@[c]),
            Some(i) => {
                &&& i < old(srcs)@.len()
                &&& avail(old(srcs)@[i as int])
                &&& forall|c: int|
                    0 <= c < old(srcs)@.len() && avail(#[trigger] old(srcs)@[c]) ==> lex_le(
                        next_key(old(srcs)@[i as int]),
                        next_key(old(srcs)@[c]),
                    )
                &&& forall|c: int|
                    0 <= c < i && avail(#[trigger] old(srcs)@[c]) ==> lex_lt(
                        next_key(old(srcs)@[i as int]),
                        next_key(old(srcs)@[c]),
                    )
            },
        }),
{
    let mut best: Option<usize> = None;
    let mut best_key: Vec<u8> = Vec::new();
    let n = srcs.len();
    let mut c: usize = 0;
    while c < n
        invariant
            n == old(srcs)@.len(),
            srcs@.len() == n,
            c <= n,
            forall|j: int|
                0 <= j < n ==> (#[trigger] srcs@[j]).wf() && same_stream(
                    old(srcs)@[j],
                    srcs@[j],
                ),
            (match best {
                None => forall|j: int| 0 <= j < c ==> !avail(#[trigger] srcs@[j]),
                Some(b) => {
                    &&& (b as int) < c
                    &&& avail(srcs@[b as int])
                    &&& best_key@ == next_key(srcs@[b as int])
                    &&& forall|j: int|
                        0 <= j < c && avail(#[trigger] srcs@[j]) ==> lex_le(
                            best_key@,
                            next_key(srcs@[j]),
                        )
                    &&& forall|j: int|
                        0 <= j < b && avail(#[trigger] srcs@[j]) ==> lex_lt(
                            best_key@,
                            next_key(srcs@[j]),
                        )
                },
            }),
        decreases n - c,
    {
        let ghost pre = srcs@;
        let ghost old_best = best;
        let ghost old_best_key = best_key@;
        let f = &mut srcs[c];
        match f.peek_record() {
            Ok(rec) => {
                proof {
                    pre[c as int].lemma_wf_records_valid();
                    assert(avail(pre[c as int]));
                    assert(rec@ == pre[c as int].records()[pre[c as int].cursor()]);
                }
                let replace = match &best {
                    None => true,
                    Some(_) => bytes_lt(rec.key(), best_key.as_slice()),
                };
                if replace {
                    let owned = slice_to_vec(rec.key());
                    best_key = owned;
                    best = Some(c);
                    proof {
                        lemma_lex_le_refl(best_key@);
                        assert forall|j: int| 0 <= j < c + 1 && avail(#[trigger] srcs@[j]) implies
                            lex_le(best_key@, next_key(srcs@[j])) by {
                            if j < c {
                                if old_best is Some {
                                    assert(lex_le(old_best_key, next_key(pre[j])));
                                    lemma_lex_lt_le_trans(
                                        best_key@,
                                        old_best_key,
                                        next_key(pre[j]),
                                    );
                                }
                            }
                        }
                        assert forall|j: int| 0 <= j < c && avail(#[trigger] srcs@[j]) implies
                            lex_lt(best_key@, next_key(srcs@[j])) by {
                            if old_best is Some {
                                assert(lex_le(old_best_key, next_key(pre[j])));
                                lemma_lex_lt_le_trans(best_key@, old_best_key, next_key(pre[j]));
                            }
                        }
                    }
                } else {
                    proof {
                        lemma_lex_lt_complement(rec@.key(), old_best_key);
                        assert(lex_le(old_best_key, next_key(srcs@[c as int])));
                    }
                }
            },
            Err(_) => {},
        }
        c += 1;
    }
    proof {
        assert forall|j: int| 0 <= j < n implies (avail(#[trigger] old(srcs)@[j]) == avail(
            srcs@[j],
        )) && (avail(srcs@[j]) ==> next_key(old(srcs)@[j]) == next_key(srcs@[j])) by {
            assert(srcs@[j].wf());
        }
    }
    best
}

/// Flush the collapser's open group, if it ended in an insertion: append
/// the record to the destination log and point the index at its value.
fn emit_group(
    dst: &mut StoreFile,
    index: &mut Index,
    current_key: &Option<Vec<u8>>,
    current_val: &Option<Vec<u8>>,
    Ghost(fed): Ghost<Seq<RecordData>>,
)
    requires
        old(dst).wf(),
        old(dst).appending(),
        old(dst).records() == emitted(fed),
        old(index).wf(),
        index_tracks(old(index)@, *old(dst)),
        all_valid(fed),
        fed.len() == 0 ==> (*current_val) is None,
        (*current_val) matches Some(cv) ==> (fed.len() > 0 && ((*current_key) matches Some(ck)
            && ck@ == fed.last().key()) && fed.last() == (RecordData::Insert {
            key: fed.last().key(),
            val: cv@,
        })),
        (*current_val) is None ==> fed.len() == 0 || fed.last() is Remove,
    ensures
        final(dst).wf(),
        final(dst).appending(),
        final(dst).id() == old(dst).id(),
        final(dst).records() == emitted(fed) + pending(fed),
        final(index).wf(),
        index_tracks(final(index)@, *final(dst)),
{
    match (current_key, current_val) {
        (Some(ck), Some(cv)) => {
            let ghost ins = RecordData::Insert { key: ck@, val: cv@ };
            proof {
                assert(fed.last().valid());
                assert(pending(fed) =~= seq![ins]);
            }
            let ghost prior_dst = *dst;
            let ghost prior_index = index@;
            let entry = match dst.insert(ck.as_slice(), cv.as_slice()) {
                Ok(entry) => entry,
                Err(_) => {
                    proof {
                        assert(false);
                    }
                    return ;
                },
            };
            proof {
                lemma_replay_push(prior_dst.records(), ins);
            }
            index.insert(ck.as_slice(), entry);
            proof {
                assert(dst.records() =~= emitted(fed) + pending(fed));
                let m0 = replay(prior_dst.records());
                let m1 = replay(dst.records());
                assert(m1 == m0.insert(ck@, cv@));
                assert(index@.dom() =~= m1.dom());
                assert forall|k: Seq<u8>| #[trigger] index@.contains_key(k) implies {
                    let e = index@[k];
                    &&& e.file == dst.id()
                    &&& e.offset + e.length <= dst.bytes().len()
                    &&& m1.contains_key(k)
                    &&& dst.bytes().subrange(e.offset as int, e.offset + e.length) == m1[k]
                } by {
                    let e = index@[k];
                    if k == ck@ {
                        assert(e == entry);
                        assert(m1[k] == cv@);
                    } else {
                        assert(prior_index.contains_key(k));
                        assert(e == prior_index[k]);
                        assert(m1[k] == m0[k]);
                        assert(dst.bytes().subrange(e.offset as int, e.offset + e.length)
                            =~= prior_dst.bytes().subrange(e.offset as int, e.offset + e.length));
                    }
                }
            }
        },
        _ => {
            proof {
                assert((*current_val) is None);
                assert(pending(fed) =~= Seq::<RecordData>::empty());
                assert(emitted(fed) + pending(fed) =~= emitted(fed));
            }
        },
    }
}

/// Merge pass: repeatedly draw the record with the smallest available key
/// and feed it to the duplicate collapser, writing the surviving records
/// into `dst` and building the index over them.  The output holds, for
/// every key, exactly the last write of that key's history across the
/// chunks — only insertions, in strictly ascending key order.
pub(crate) fn merge(dst: &mut StoreFile, srcs: &mut Vec<StoreFile>) -> (r: Index)
    requires
        old(dst).wf(),
        old(dst).appending(),
        old(dst).records() == Seq::<RecordData>::empty(),
        forall|c: int|
            0 <= c < old(srcs)@.len() ==> (#[trigger] old(srcs)@[c]).wf() && sorted_by_key(
                old(srcs)@[c].records(),
            ) && old(srcs)@[c].cursor() == 0,
    ensures
        final(dst).wf(),
        final(dst).appending(),
        final(dst).id() == old(dst).id(),
        all_inserts(final(dst).records()),
        strictly_sorted_by_key(final(dst).records()),
        r.wf(),
        index_tracks(r@, *final(dst)),
        forall|k: Seq<u8>|
            #![trigger chunks_proj(old(srcs)@, k)]
            (match last_write(chunks_proj(old(srcs)@, k)) {
                Some(v) => replay(final(dst).records()).contains_key(k) && replay(
                    final(dst).records(),
                )[k] == v,
                None => !replay(final(dst).records()).contains_key(k),
            }),
{
    let ghost orig = srcs@;
    let mut index = Index::new();
    let mut current_key: Option<Vec<u8>> = None;
    let mut current_val: Option<Vec<u8>> = None;
    let ghost mut fed: Seq<RecordData> = Seq::empty();
    proof {
        assert forall|k: Seq<u8>| #[trigger]
            proj(fed, k) + rem_proj(srcs@, k) == chunks_proj(orig, k) by {
            lemma_proj_empty(k);
            lemma_rem_proj_at_start(orig, k);
            assert(Seq::<RecordData>::empty() + chunks_proj(orig, k) =~= chunks_proj(orig, k));
        }
        assert forall|c: int| 0 <= c < orig.len() implies all_valid(
            (#[trigger] orig[c]).records(),
        ) by {
            orig[c].lemma_wf_records_valid();
        }
    }
    loop
        invariant
            dst.wf(),
            dst.appending(),
            dst.id() == old(dst).id(),
            srcs@.len() == orig.len(),
            forall|c: int|
                0 <= c < orig.len() ==> (#[trigger] srcs@[c]).wf() && srcs@[c].records()
                    == orig[c].records() && 0 <= srcs@[c].cursor() <= srcs@[c].records().len(),
            forall|c: int| 0 <= c < orig.len() ==> sorted_by_key((#[trigger] orig[c]).records()),
            forall|c: int| 0 <= c < orig.len() ==> all_valid((#[trigger] orig[c]).records()),
            forall|k: Seq<u8>| #[trigger]
                proj(fed, k) + rem_proj(srcs@, k) == chunks_proj(orig, k),
            sorted_by_key(fed),
            all_valid(fed),
            fed.len() > 0 ==> (forall|c: int, m: int|
                0 <= c < orig.len() && srcs@[c].cursor() <= m < srcs@[c].records().len()
                    ==> lex_le(fed.last().key(), (#[trigger] srcs@[c].records()[m]).key())),
            (fed.len() == 0 <==> current_key is None),
            (current_key matches Some(ck) ==> fed.len() > 0 && ck@ == fed.last().key()),
            (current_val matches Some(cv) ==> fed.len() > 0 && fed.last() == (RecordData::Insert {
                key: fed.last().key(),
                val: cv@,
            })),
            (current_val is None ==> fed.len() == 0 || fed.last() is Remove),
            dst.records() == emitted(fed),
            index.wf(),
            index_tracks(index@, *dst),
        ensures
            dst.wf(),
            dst.appending(),
            dst.id() == old(dst).id(),
            srcs@.len() == orig.len(),
            forall|c: int|
                0 <= c < orig.len() ==> (#[trigger] srcs@[c]).cursor()
                    == srcs@[c].records().len(),
            forall|k: Seq<u8>| #[trigger]
                proj(fed, k) + rem_proj(srcs@, k) == chunks_proj(orig, k),
            sorted_by_key(fed),
            all_valid(fed),
            (fed.len() == 0 <==> current_key is None),
            (current_key matches Some(ck) ==> fed.len() > 0 && ck@ == fed.last().key()),
            (current_val matches Some(cv) ==> fed.len() > 0 && fed.last() == (RecordData::Insert {
                key: fed.last().key(),
                val: cv@,
            })),
            (current_val is None ==> fed.len() == 0 || fed.last() is Remove),
            dst.records() == emitted(fed),
            index.wf(),
            index_tracks(index@, *dst),
        decreases rem_count(srcs@),
    {
        let ghost pre_pick = srcs@;
        let picked = pick(srcs);
        proof {
            assert forall|j: int| 0 <= j < orig.len() implies (avail(
                #[trigger] pre_pick[j],
            ) == avail(srcs@[j])) && (avail(srcs@[j]) ==> next_key(pre_pick[j]) == next_key(
                srcs@[j],
            )) by {
                assert(srcs@[j].wf());
            }
            assert forall|j: int| 0 <= j < orig.len() implies (avail(#[trigger] srcs@[j]) == avail(
                pre_pick[j],
            )) && (avail(srcs@[j]) ==> next_key(srcs@[j]) == next_key(pre_pick[j])) by {
                assert(srcs@[j].wf());
            }
            assert forall|k: Seq<u8>| #[trigger]
                proj(fed, k) + rem_proj(srcs@, k) == chunks_proj(orig, k) by {
                lemma_rem_proj_congruent(pre_pick, srcs@, k);
            }
            lemma_rem_count_congruent(pre_pick, srcs@);
        }
        let i = match picked {
            Some(i) => i,
            None => {
                break ;
            },
        };
        let ghost pre = srcs@;
        let f = &mut srcs[i];
        let record = match f.read_record() {
            Ok(record) => record,
            Err(_) => {
                proof {
                    assert(false);
                }
                vstd::pervasive::unreached()
            },
        };
        let ghost rv = record@;
        proof {
            assert(rv == pre[i as int].records()[pre[i as int].cursor()]);
            assert(rv.key() == next_key(pre[i as int]));
            assert(rv.valid());
            lemma_consume(pre, srcs@, i as int, rv.key());
            lemma_rem_count_nonneg(srcs@);
        }
        let is_same = match &current_key {
            Some(ck) => bytes_eq(record.key(), ck.as_slice()),
            None => false,
        };
        if !is_same {
            emit_group(dst, &mut index, &current_key, &current_val, Ghost(fed));
            let owned = slice_to_vec(record.key());
            current_key = Some(owned);
        }
        let val_opt = match record {
            Record::Insert(_, v) => Some(v),
            Record::Remove(_) => None,
        };
        current_val = val_opt;
        proof {
            let prev_fed = fed;
            fed = fed.push(rv);
            assert(fed.last() == rv && fed.drop_last() =~= prev_fed);
            // the key ordering invariants
            assert forall|c: int, m: int|
                0 <= c < orig.len() && srcs@[c].cursor() <= m < srcs@[c].records().len() implies
                lex_le(rv.key(), (#[trigger] srcs@[c].records()[m]).key()) by {
                if c == i {
                    assert(lex_le(
                        orig[c].records()[pre[i as int].cursor()].key(),
                        orig[c].records()[m].key(),
                    ));
                } else {
                    assert(avail(pre[c]));
                    assert(avail(pre_pick[c]) && next_key(pre_pick[c]) == next_key(pre[c]));
                    assert(lex_le(next_key(pre_pick[i as int]), next_key(pre_pick[c])));
                    assert(lex_le(next_key(pre[i as int]), next_key(pre[c])));
                    lemma_lex_le_refl(next_key(pre[c]));
                    assert(lex_le(next_key(pre[c]), orig[c].records()[m].key()));
                    lemma_lex_le_trans(
                        rv.key(),
                        next_key(pre[c]),
                        orig[c].records()[m].key(),
                    );
                }
            }
            assert(sorted_by_key(fed)) by {
                if prev_fed.len() > 0 {
                    assert(lex_le(prev_fed.last().key(), rv.key()));
                    assert forall|l1: int, l2: int| 0 <= l1 < l2 < fed.len() implies lex_le(
                        (#[trigger] fed[l1]).key(),
                        (#[trigger] fed[l2]).key(),
                    ) by {
                        if l2 == fed.len() - 1 {
                            assert(fed[l1] == prev_fed[l1]);
                            if l1 == prev_fed.len() - 1 {
                                assert(fed[l1] == prev_fed.last());
                            } else {
                                assert(lex_le(prev_fed[l1].key(), prev_fed.last().key()));
                                lemma_lex_le_trans(
                                    prev_fed[l1].key(),
                                    prev_fed.last().key(),
                                    rv.key(),
                                );
                            }
                        } else {
                            assert(fed[l1] == prev_fed[l1] && fed[l2] == prev_fed[l2]);
                        }
                    }
                }
            }
            // each key's history across log and chunks stays in balance
            assert forall|k: Seq<u8>| #[trigger]
                proj(fed, k) + rem_proj(srcs@, k) == chunks_proj(orig, k) by {
                lemma_proj_push(prev_fed, k, rv);
                assert(proj(prev_fed.push(rv), k) == proj(fed, k));
                lemma_consume(pre, srcs@, i as int, k);
                if k == rv.key() {
                    assert forall|c: int| 0 <= c < i implies proj(
                        chunk_rem(#[trigger] pre[c]),
                        k,
                    ) == Seq::<RecordData>::empty() by {
                        if avail(pre[c]) {
                            assert(avail(pre_pick[c]) && next_key(pre_pick[c]) == next_key(
                                pre[c],
                            ));
                            assert(lex_lt(next_key(pre_pick[i as int]), next_key(pre_pick[c])));
                            assert(lex_lt(next_key(pre[i as int]), next_key(pre[c])));
                            assert forall|x: int| 0 <= x < chunk_rem(pre[c]).len() implies (
                            #[trigger] chunk_rem(pre[c])[x]).key() != k by {
                                assert(chunk_rem(pre[c])[x] == orig[c].records()[pre[c].cursor()
                                    + x]);
                                lemma_lex_le_refl(next_key(pre[c]));
                                assert(lex_le(
                                    next_key(pre[c]),
                                    orig[c].records()[pre[c].cursor() + x].key(),
                                ));
                                lemma_lex_lt_le_trans(
                                    k,
                                    next_key(pre[c]),
                                    orig[c].records()[pre[c].cursor() + x].key(),
                                );
                            }
                            lemma_proj_none(chunk_rem(pre[c]), k);
                        } else {
                            assert(chunk_rem(pre[c]) =~= Seq::<RecordData>::empty());
                            lemma_proj_empty(k);
                        }
                    }
                    assert(rem_proj(pre, k) == seq![rv] + rem_proj(srcs@, k));
                    assert(proj(prev_fed, k) + (seq![rv] + rem_proj(srcs@, k)) =~= (proj(
                        prev_fed,
                        k,
                    ).push(rv)) + rem_proj(srcs@, k));
                } else {
                    assert(rem_proj(srcs@, k) == rem_proj(pre, k));
                }
            }
            // the collapser state matches the stream fed so far
            if prev_fed.len() == 0 {
                assert(emitted(fed) =~= Seq::<RecordData>::empty());
                assert(dst.records() == emitted(prev_fed) + pending(prev_fed));
                assert(emitted(prev_fed) + pending(prev_fed) =~= Seq::<RecordData>::empty());
            } else if is_same {
                lemma_emitted_push(prev_fed, rv);
                assert(rv.key() == prev_fed.last().key());
                assert(emitted(fed) == emitted(prev_fed));
            } else {
                lemma_emitted_push(prev_fed, rv);
                assert(rv.key() != prev_fed.last().key());
                assert(emitted(fed) == emitted(prev_fed) + pending(prev_fed));
                assert(dst.records() == emitted(prev_fed) + pending(prev_fed));
            }
        }
    }
    proof {
        assert forall|k: Seq<u8>| #[trigger] proj(fed, k) == chunks_proj(orig, k) by {
            assert forall|c: int| 0 <= c < srcs@.len() implies proj(
                chunk_rem(#[trigger] srcs@[c]),
                k,
            ) == Seq::<RecordData>::empty() by {
                assert(chunk_rem(srcs@[c]) =~= Seq::<RecordData>::empty());
                lemma_proj_empty(k);
            }
            lemma_rem_proj_all_empty(srcs@, k);
            assert(proj(fed, k) + Seq::<RecordData>::empty() =~= proj(fed, k));
        }
    }
    emit_group(dst, &mut index, &current_key, &current_val, Ghost(fed));
    proof {
        assert(dst.records() == collapsed(fed));
        lemma_collapsed_props(fed);
        assert(orig == old(srcs)@);
        assert forall|k: Seq<u8>|
            #![trigger chunks_proj(old(srcs)@, k)]
            (match last_write(chunks_proj(old(srcs)@, k)) {
                Some(v) => replay(dst.records()).contains_key(k) && replay(dst.records())[k] == v,
                None => !replay(dst.records()).contains_key(k),
            }) by {
            assert(proj(fed, k) == chunks_proj(orig, k));
        }
    }
    index
}

} // verus!
