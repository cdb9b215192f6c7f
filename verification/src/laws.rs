//! What holds of every store whose parts agree, stated over its records and
//! over what `get` and `get_unique` return for them.

use vstd::prelude::*;
use crate::bcdb::{recovered, BCDB};
use crate::datafile::{
    content_bytes, fits, lemma_content_at_stable, lemma_content_at_written,
    lemma_records_from_resolve, listed, resolve, ContentView, Stored, PAYLOAD_LIMIT,
};
use crate::offset::{Offset, MAX_OFFSET};
use crate::error::BCDBError;
use crate::logfile::{lemma_snapshot_pages, replay, LogPageView};
use crate::walk::{finds, Hit};
use crate::model::{
    all_resolve, ascending, history, hits_of, lemma_clean_index_matches, lemma_history_push,
    lemma_lookup_is_history, lemma_twins_positive, regions_agree, twins,
};

verus! {

/// Whether `key` is among the keys of the record.
pub open spec fn has_key(s: Stored, key: Seq<u8>) -> bool {
    s.content matches ContentView::Data(keys, _) && keys.contains(key)
}

/// Whether the record, if it has `key`, has no other key with the hash of
/// `key`: it neither repeats `key` nor holds another key with the same hash.
pub open spec fn single(s: Stored, key: Seq<u8>) -> bool {
    s.content matches ContentView::Data(keys, _) ==> (keys.contains(key) ==> twins(keys, key) <= 1)
}

/// The records that have `key`, oldest first.
pub open spec fn holders(records: Seq<Stored>, key: Seq<u8>) -> Seq<Hit>
    decreases records.len(),
{
    if records.len() == 0 {
        Seq::empty()
    } else if has_key(records.last(), key) {
        holders(records.drop_last(), key).push(listed(records.last()))
    } else {
        holders(records.drop_last(), key)
    }
}

/// The records of a store whose parts agree have growing addresses, and each
/// is found at its address.
pub proof fn law_records_ascend(db: BCDB)
    requires
        db.inv(),
    ensures
        ascending(db@),
        all_resolve(db.data@, db@),
{
    lemma_records_from_resolve(db.data@, 0);
}

/// A record contributes itself, and nothing else, to the history of each of
/// its keys; at least once.
pub proof fn lemma_hits(s: Stored, key: Seq<u8>)
    ensures
        has_key(s, key) ==> hits_of(s, key).len() >= 1,
        !has_key(s, key) ==> hits_of(s, key).len() == 0,
        single(s, key) ==> hits_of(s, key).len() <= 1,
        forall|a: int| 0 <= a < hits_of(s, key).len() ==> #[trigger] hits_of(s, key)[a] == listed(s),
{
    if has_key(s, key) {
        lemma_twins_positive(s.content->Data_0, key);
    }
}

/// No record of a history has an address beyond the greatest address of the
/// records.
pub proof fn lemma_history_below(records: Seq<Stored>, key: Seq<u8>, bound: int)
    requires
        forall|i: int| 0 <= i < records.len() ==> (#[trigger] records[i]).offset.value <= bound,
    ensures
        forall|a: int|
            0 <= a < history(records, key).len() ==> (#[trigger] history(
                records,
                key,
            )[a]).0.value <= bound,
    decreases records.len(),
{
    if records.len() > 0 {
        let front = records.drop_last();
        assert forall|i: int| 0 <= i < front.len() implies (#[trigger] front[i]).offset.value
            <= bound by {
            assert(front[i] == records[i]);
        }
        lemma_history_below(front, key, bound);
        lemma_hits(records.last(), key);
        assert(records[records.len() - 1].offset.value <= bound);
        let here = hits_of(records.last(), key);
        assert forall|a: int| 0 <= a < history(records, key).len() implies (#[trigger] history(
            records,
            key,
        )[a]).0.value <= bound by {
            if a < here.len() {
                assert(history(records, key)[a] == here[a]);
            } else {
                assert(history(records, key)[a] == history(front, key)[a - here.len()]);
            }
        }
    }
}

/// Last write wins. The record that was put last under a key is the first of
/// the key's history, which is what `get_unique` returns; and no record of
/// the history has a greater address.
pub proof fn law_last_put_wins(
    records: Seq<Stored>,
    s: Stored,
    keys: Seq<Seq<u8>>,
    payload: Seq<u8>,
    key: Seq<u8>,
)
    requires
        ascending(records.push(s)),
        s.content == ContentView::Data(keys, payload),
        keys.contains(key),
    ensures
        history(records.push(s), key).len() > 0,
        history(records.push(s), key)[0] == (s.offset, keys, payload),
        forall|a: int|
            0 <= a < history(records.push(s), key).len() ==> (#[trigger] history(
                records.push(s),
                key,
            )[a]).0.value <= s.offset.value,
{
    let all = records.push(s);
    lemma_history_push(records, s, key);
    lemma_hits(s, key);
    assert(history(all, key)[0] == hits_of(s, key)[0]);
    assert forall|i: int| 0 <= i < all.len() implies (#[trigger] all[i]).offset.value
        <= s.offset.value by {
        if i < records.len() {
            assert(all[i].offset.value < all[records.len() as int].offset.value);
        }
    }
    lemma_history_below(all, key, s.offset.value as int);
}

/// Last write wins, however many records of other keys were put since: the
/// last record that has `key` is the first of the key's history, which is
/// what `get_unique` returns, and no record of the history has a greater
/// address.
pub proof fn law_newest_is_first(records: Seq<Stored>, key: Seq<u8>, i: int)
    requires
        ascending(records),
        0 <= i < records.len(),
        has_key(records[i], key),
        forall|j: int| i < j < records.len() ==> !has_key(#[trigger] records[j], key),
    ensures
        history(records, key).len() > 0,
        history(records, key)[0] == listed(records[i]),
        forall|a: int|
            0 <= a < history(records, key).len() ==> (#[trigger] history(
                records,
                key,
            )[a]).0.value <= records[i].offset.value,
    decreases records.len(),
{
    let front = records.drop_last();
    let last = records.last();
    assert(records =~= front.push(last));
    if i == records.len() - 1 {
        law_last_put_wins(front, last, last.content->Data_0, last.content->Data_1, key);
    } else {
        assert(!has_key(records[records.len() - 1], key));
        lemma_hits(last, key);
        assert(hits_of(last, key) + history(front, key) =~= history(front, key));
        assert forall|a: int, b: int| 0 <= a < b < front.len() implies (#[trigger] front[a]).offset.value
            < (#[trigger] front[b]).offset.value by {
            assert(front[a] == records[a]);
            assert(front[b] == records[b]);
        }
        assert forall|j: int| i < j < front.len() implies !has_key(#[trigger] front[j], key) by {
            assert(front[j] == records[j]);
        }
        assert(front[i] == records[i]);
        law_newest_is_first(front, key, i);
    }
}

/// A key that no record has finds nothing.
pub proof fn law_unknown_key_finds_nothing(records: Seq<Stored>, key: Seq<u8>)
    requires
        forall|i: int| 0 <= i < records.len() ==> !has_key(#[trigger] records[i], key),
    ensures
        history(records, key).len() == 0,
    decreases records.len(),
{
    if records.len() > 0 {
        let front = records.drop_last();
        assert forall|i: int| 0 <= i < front.len() implies !has_key(#[trigger] front[i], key) by {
            assert(front[i] == records[i]);
        }
        law_unknown_key_finds_nothing(front, key);
        assert(!has_key(records[records.len() - 1], key));
        lemma_hits(records.last(), key);
    }
}

/// A put under other keys leaves the history of a key as it was.
pub proof fn law_other_keys_apart(records: Seq<Stored>, s: Stored, key: Seq<u8>)
    requires
        !has_key(s, key),
    ensures
        history(records.push(s), key) == history(records, key),
{
    lemma_history_push(records, s, key);
    lemma_hits(s, key);
    assert(hits_of(s, key) + history(records, key) =~= history(records, key));
}

/// The history of a key is newest first: where no record repeats the key or
/// holds another key with its hash, the addresses fall strictly, and the
/// history is the records that have the key in the reverse of the order in
/// which they were put.
pub proof fn law_history_descends(records: Seq<Stored>, key: Seq<u8>)
    requires
        ascending(records),
        forall|i: int| 0 <= i < records.len() ==> single(#[trigger] records[i], key),
    ensures
        history(records, key) == holders(records, key).reverse(),
        forall|a: int, b: int|
            0 <= a < b < history(records, key).len() ==> (#[trigger] history(
                records,
                key,
            )[a]).0.value > (#[trigger] history(records, key)[b]).0.value,
    decreases records.len(),
{
    if records.len() == 0 {
        assert(holders(records, key).reverse() =~= Seq::<Hit>::empty());
    } else {
        let front = records.drop_last();
        let last = records.last();
        assert forall|i: int| 0 <= i < front.len() implies single(#[trigger] front[i], key) by {
            assert(front[i] == records[i]);
        }
        assert forall|i: int, j: int| 0 <= i < j < front.len() implies (#[trigger] front[i]).offset.value
            < (#[trigger] front[j]).offset.value by {
            assert(front[i] == records[i]);
            assert(front[j] == records[j]);
        }
        law_history_descends(front, key);
        lemma_hits(last, key);
        assert(single(records[records.len() - 1], key));
        assert forall|i: int| 0 <= i < front.len() implies (#[trigger] front[i]).offset.value
            <= last.offset.value - 1 by {
            assert(front[i] == records[i]);
            assert(records[i].offset.value < records[records.len() - 1].offset.value);
        }
        lemma_history_below(front, key, last.offset.value - 1);
        let here = hits_of(last, key);
        let h = history(records, key);
        let older = history(front, key);
        if has_key(last, key) {
            assert(here =~= seq![listed(last)]);
            assert(holders(front, key).push(listed(last)).reverse() =~= seq![listed(last)]
                + holders(front, key).reverse());
        } else {
            assert(here + older =~= older);
        }
        assert forall|a: int, b: int| 0 <= a < b < h.len() implies (#[trigger] h[a]).0.value > (
        #[trigger] h[b]).0.value by {
            if a < here.len() {
                assert(h[a] == listed(last));
                assert(h[b] == older[b - here.len()]);
            } else {
                assert(h[a] == older[a - here.len()]);
                assert(h[b] == older[b - here.len()]);
            }
        }
    }
}

/// Keys that were put together find the same record: right after the put it
/// is the first of the history of each of them.
pub proof fn law_keys_share_record(
    records: Seq<Stored>,
    s: Stored,
    keys: Seq<Seq<u8>>,
    payload: Seq<u8>,
    k1: Seq<u8>,
    k2: Seq<u8>,
)
    requires
        s.content == ContentView::Data(keys, payload),
        keys.contains(k1),
        keys.contains(k2),
    ensures
        history(records.push(s), k1).len() > 0,
        history(records.push(s), k2).len() > 0,
        history(records.push(s), k1)[0] == history(records.push(s), k2)[0],
        history(records.push(s), k1)[0] == (s.offset, keys, payload),
{
    lemma_history_push(records, s, k1);
    lemma_history_push(records, s, k2);
    lemma_hits(s, k1);
    lemma_hits(s, k2);
    assert(history(records.push(s), k1)[0] == hits_of(s, k1)[0]);
    assert(history(records.push(s), k2)[0] == hits_of(s, k2)[0]);
}

/// Every put under a key adds one record to the key's history, and each has
/// an address of its own: where no record repeats the key or holds another
/// key with its hash, the history is as long as the number of records that
/// have the key, and no two of its addresses are equal.
pub proof fn law_one_hit_per_put(records: Seq<Stored>, key: Seq<u8>)
    requires
        ascending(records),
        forall|i: int| 0 <= i < records.len() ==> single(#[trigger] records[i], key),
    ensures
        history(records, key).len() == holders(records, key).len(),
        forall|a: int, b: int|
            0 <= a < history(records, key).len() && 0 <= b < history(records, key).len() && a
                != b ==> (#[trigger] history(records, key)[a]).0 != (#[trigger] history(
                records,
                key,
            )[b]).0,
{
    law_history_descends(records, key);
    let h = history(records, key);
    assert forall|a: int, b: int| 0 <= a < h.len() && 0 <= b < h.len() && a != b implies (
    #[trigger] h[a]).0 != (#[trigger] h[b]).0 by {
        if a < b {
            assert(h[a].0.value > h[b].0.value);
        } else {
            assert(h[b].0.value > h[a].0.value);
        }
    }
}

/// One more put under a key makes the records that have the key one more.
pub proof fn law_put_adds_holder(records: Seq<Stored>, s: Stored, key: Seq<u8>)
    ensures
        holders(records.push(s), key).len() == holders(records, key).len() + if has_key(s, key) {
            1int
        } else {
            0int
        },
{
    assert(records.push(s).drop_last() =~= records);
}

/// What was put comes back. A record that fits, appended to a content log,
/// is found at the address that the append returned, exactly as it was put,
/// and it stays there whatever is appended later. For a record without keys
/// this is what `get_content` returns after `put_content`: no keys, and the
/// payload.
pub proof fn law_content_comes_back(data: Seq<u8>, c: ContentView, later: Seq<u8>)
    requires
        data.len() < MAX_OFFSET,
        match c {
            ContentView::Data(keys, payload) => fits(keys, payload),
            ContentView::Extension(payload) => payload.len() < PAYLOAD_LIMIT,
        },
    ensures
        resolve(data + content_bytes(c) + later, Offset { value: (data.len() + 1) as u64 }) == Some(
            c,
        ),
        listed(Stored { offset: Offset { value: (data.len() + 1) as u64 }, content: c }).1 == match c {
            ContentView::Data(keys, _) => keys,
            ContentView::Extension(_) => Seq::<Seq<u8>>::empty(),
        },
{
    lemma_content_at_written(data, c);
    lemma_content_at_stable(data + content_bytes(c), later, data.len() as int);
}

/// Recovery undoes what was not committed. From the regions of a store that
/// has just committed, with whatever was appended to content log and link
/// log afterwards, recovery brings back the regions as they were at the
/// commit.
pub proof fn law_recovery_restores_commit(db: BCDB, data_tail: Seq<u8>, link_tail: Seq<u8>)
    requires
        db.wf(),
        db.committed(),
    ensures
        recovered(db.log@, db.table@, db.data@ + data_tail, db.link@ + link_tail) == Ok::<
            (Seq<u8>, Seq<u8>, Seq<u8>),
            BCDBError,
        >((db.table@, db.data@, db.link@)),
{
    let d = db.data@.len() as int;
    let t = db.table@.len() as int;
    let l = db.link@.len() as int;
    lemma_snapshot_pages(d, t, l);
    assert((db.data@ + data_tail).subrange(0, d) =~= db.data@);
    assert((db.link@ + link_tail).subrange(0, l) =~= db.link@);
    assert(db.table@.subrange(0, t) =~= db.table@);
    let pages = seq![LogPageView::LengthSnapshot { data_len: d, table_len: t, link_len: l }];
    assert(replay(db.table@, pages, 1, 1) == Ok::<Seq<u8>, BCDBError>(db.table@));
}

/// The regions of a store whose parts agree, and that has nothing pending,
/// agree by themselves: they can be opened again.
pub proof fn law_committed_regions_agree(db: BCDB)
    requires
        db.inv(),
        db.mem.clean(),
    ensures
        regions_agree(db.table@, db.data@, db.link@),
{
    lemma_clean_index_matches(db.mem, db.table@, db.data@, db.link@);
}

/// A crash loses the batch that was not completed, and nothing else. Take a
/// store that has just committed, let content log and link log grow as they
/// may, and open a store over those regions: wherever recovery leaves the
/// regions that `after` holds, `after` holds the records that `before` held
/// at the commit, and a lookup finds the history that it found then.
pub proof fn law_crash_loses_open_batch_only(
    before: BCDB,
    data_tail: Seq<u8>,
    link_tail: Seq<u8>,
    after: BCDB,
    key: Seq<u8>,
)
    requires
        before.inv(),
        before.committed(),
        after.wf(),
        after.mem.clean(),
        after.mem.mirrors(after.table@),
        recovered(before.log@, before.table@, before.data@ + data_tail, before.link@ + link_tail)
            matches Ok(regions) && regions == (after.table@, after.data@, after.link@),
    ensures
        after.inv(),
        after@ == before@,
        after.mem.lookup(after.link@, after.data@, key) == finds(history(before@, key)),
{
    law_recovery_restores_commit(before, data_tail, link_tail);
    law_committed_regions_agree(before);
    lemma_clean_index_matches(after.mem, after.table@, after.data@, after.link@);
    lemma_lookup_is_history(after.mem, after.link@, after.data@, key);
}

} // verus!

