//! What the store holds, said without bytes: the records of the content log
//! in the order in which they were written, and for each key the records that
//! have it, newest first. The lemmas here tie that to the chains that a
//! lookup walks.

use vstd::prelude::*;
use crate::datafile::{
    lemma_records_from_resolve, records, records_from, resolve, ContentView, Stored,
};
use crate::linkfile::{chain, link_resolve};
use crate::hashing::{bucket_of, hash};
use crate::memtable::{placed, MemTable};
use crate::walk::{
    finds, just, lemma_scan_concat, lemma_then_nothing, nothing, probe, scan, then, walk, Hit,
};
use crate::offset::{Offset, MAX_OFFSET};
use crate::table::{bucket_at, BUCKETS};

verus! {

/// The chain entries that the index holds for bucket `b` once every one of
/// `records` was put, oldest first.
pub open spec fn indexed(records: Seq<Stored>, b: int) -> Seq<(u32, Offset)>
    decreases records.len(),
{
    if records.len() == 0 {
        Seq::empty()
    } else {
        match records.last().content {
            ContentView::Data(keys, _) => indexed(records.drop_last(), b) + placed(
                keys,
                records.last().offset,
                b,
            ),
            ContentView::Extension(_) => indexed(records.drop_last(), b),
        }
    }
}

/// How many of `keys` have the hash of `key`.
pub open spec fn twins(keys: Seq<Seq<u8>>, key: Seq<u8>) -> nat
    decreases keys.len(),
{
    if keys.len() == 0 {
        0
    } else if hash(keys.last()) == hash(key) {
        twins(keys.drop_last(), key) + 1
    } else {
        twins(keys.drop_last(), key)
    }
}

/// `hit`, `n` times.
pub open spec fn repeat(hit: Hit, n: nat) -> Seq<Hit> {
    Seq::new(n, |i: int| hit)
}

/// What one record contributes to a lookup of `key`: nothing unless `key` is
/// among its keys; else the record, once for each of its keys that has the
/// hash of `key`. That is once, unless the record's keys repeat `key` or
/// hold another key with the same hash.
pub open spec fn hits_of(s: Stored, key: Seq<u8>) -> Seq<Hit> {
    match s.content {
        ContentView::Data(keys, payload) => {
            if keys.contains(key) {
                repeat((s.offset, keys, payload), twins(keys, key))
            } else {
                Seq::empty()
            }
        },
        ContentView::Extension(_) => Seq::empty(),
    }
}

/// The records that have `key`, newest first.
pub open spec fn history(records: Seq<Stored>, key: Seq<u8>) -> Seq<Hit>
    decreases records.len(),
{
    if records.len() == 0 {
        Seq::empty()
    } else {
        hits_of(records.last(), key) + history(records.drop_last(), key)
    }
}

/// The whole chain of bucket `b`, oldest entry first: what the link log holds
/// from the bucket's head backwards, then what is pending. `None` if the
/// link log cannot be walked from the head.
pub open spec fn bucket_chain(mem: MemTable, link: Seq<u8>, b: int) -> Option<Seq<(u32, Offset)>> {
    match chain(link, mem.heads@[b]) {
        None => None,
        Some(stored) => Some(stored + mem.pending@[b]@),
    }
}

/// Whether index and link log hold, for every bucket, exactly the entries
/// of `records`.
pub open spec fn index_matches(mem: MemTable, link: Seq<u8>, records: Seq<Stored>) -> bool {
    forall|b: int|
        0 <= b < BUCKETS ==> #[trigger] bucket_chain(mem, link, b) == Some(indexed(records, b))
}

/// Whether three regions agree: the content log parses to its end, and for
/// every bucket the chain that the link log holds from the head in the table
/// has exactly the entries of the content log's records.
pub open spec fn regions_agree(table: Seq<u8>, data: Seq<u8>, link: Seq<u8>) -> bool {
    &&& records_from(data, 0) is Ok
    &&& forall|b: int|
        0 <= b < BUCKETS ==> #[trigger] chain(link, bucket_at(table, b)) == Some(
            indexed(records(data), b),
        )
}

/// An index that mirrors the table and has nothing pending matches the
/// records exactly where the regions agree.
pub proof fn lemma_clean_index_matches(mem: MemTable, table: Seq<u8>, data: Seq<u8>, link: Seq<u8>)
    requires
        mem.wf(),
        mem.clean(),
        mem.mirrors(table),
    ensures
        index_matches(mem, link, records(data)) <==> (forall|b: int|
            0 <= b < BUCKETS ==> #[trigger] chain(link, bucket_at(table, b)) == Some(
                indexed(records(data), b),
            )),
{
    let rs = records(data);
    if index_matches(mem, link, rs) {
        assert forall|b: int| 0 <= b < BUCKETS implies #[trigger] chain(link, bucket_at(table, b))
            == Some(indexed(rs, b)) by {
            assert(bucket_chain(mem, link, b) == Some(indexed(rs, b)));
            assert(bucket_at(table, b) == mem.heads@[b]);
            let stored = chain(link, mem.heads@[b])->0;
            assert(stored + mem.pending@[b]@ =~= stored);
        }
    }
    if forall|b: int|
        0 <= b < BUCKETS ==> #[trigger] chain(link, bucket_at(table, b)) == Some(indexed(rs, b)) {
        assert forall|b: int| 0 <= b < BUCKETS implies #[trigger] bucket_chain(mem, link, b)
            == Some(indexed(rs, b)) by {
            assert(chain(link, bucket_at(table, b)) == Some(indexed(rs, b)));
            assert(bucket_at(table, b) == mem.heads@[b]);
            let stored = chain(link, mem.heads@[b])->0;
            assert(stored + mem.pending@[b]@ =~= stored);
        }
    }
}

/// Whether every one of `records` is found at its address in `data`.
pub open spec fn all_resolve(data: Seq<u8>, records: Seq<Stored>) -> bool {
    forall|i: int|
        0 <= i < records.len() ==> resolve(data, (#[trigger] records[i]).offset) == Some(
            records[i].content,
        )
}

/// Whether the addresses of `records` grow strictly.
pub open spec fn ascending(records: Seq<Stored>) -> bool {
    forall|i: int, j: int|
        0 <= i < j < records.len() ==> (#[trigger] records[i]).offset.value < (
        #[trigger] records[j]).offset.value
}

/// One more record adds its entries at the end of each bucket's entries.
pub proof fn lemma_indexed_push(records: Seq<Stored>, s: Stored, b: int)
    ensures
        indexed(records.push(s), b) == match s.content {
            ContentView::Data(keys, _) => indexed(records, b) + placed(keys, s.offset, b),
            ContentView::Extension(_) => indexed(records, b),
        },
{
    assert(records.push(s).drop_last() =~= records);
}

/// One more record comes first in the history of each of its keys.
pub proof fn lemma_history_push(records: Seq<Stored>, s: Stored, key: Seq<u8>)
    ensures
        history(records.push(s), key) == hits_of(s, key) + history(records, key),
{
    assert(records.push(s).drop_last() =~= records);
}

/// A key that is among `keys` is counted.
pub proof fn lemma_twins_positive(keys: Seq<Seq<u8>>, key: Seq<u8>)
    requires
        keys.contains(key),
    ensures
        twins(keys, key) >= 1,
    decreases keys.len(),
{
    if keys.last() != key {
        let i = choose|i: int| 0 <= i < keys.len() && keys[i] == key;
        assert(keys.drop_last()[i] == key);
        lemma_twins_positive(keys.drop_last(), key);
    }
}

/// Scanning the entries that one record placed in the bucket of `key` finds
/// the record once for each of the first keys that has the hash of `key`, if
/// `key` is among the record's keys, and nothing otherwise.
pub proof fn lemma_scan_placed(
    data: Seq<u8>,
    key: Seq<u8>,
    offset: Offset,
    keys: Seq<Seq<u8>>,
    payload: Seq<u8>,
    first: Seq<Seq<u8>>,
)
    requires
        resolve(data, offset) == Some(ContentView::Data(keys, payload)),
    ensures
        scan(data, key, placed(first, offset, bucket_of(key))) == finds(
            if keys.contains(key) {
                repeat((offset, keys, payload), twins(first, key))
            } else {
                Seq::empty()
            },
        ),
    decreases first.len(),
{
    let b = bucket_of(key);
    let hit = (offset, keys, payload);
    if first.len() == 0 {
        assert(repeat(hit, 0) =~= Seq::<Hit>::empty());
    } else {
        let front = first.drop_last();
        lemma_scan_placed(data, key, offset, keys, payload, front);
        if bucket_of(first.last()) == b {
            let e = (hash(first.last()), offset);
            let entries = placed(first, offset, b);
            assert(entries.drop_last() =~= placed(front, offset, b));
            assert(entries.last() == e);
            if hash(first.last()) == hash(key) && keys.contains(key) {
                assert(probe(data, key, e) == just(hit));
                assert(seq![hit] + repeat(hit, twins(front, key)) =~= repeat(
                    hit,
                    twins(first, key),
                ));
            } else {
                assert(probe(data, key, e) == nothing());
                lemma_then_nothing(scan(data, key, placed(front, offset, b)));
            }
        }
    }
}

/// Scanning the entries of the bucket of `key` finds the history of `key`.
pub proof fn lemma_scan_indexed(data: Seq<u8>, key: Seq<u8>, records: Seq<Stored>)
    requires
        all_resolve(data, records),
    ensures
        scan(data, key, indexed(records, bucket_of(key))) == finds(history(records, key)),
    decreases records.len(),
{
    let b = bucket_of(key);
    if records.len() > 0 {
        let front = records.drop_last();
        let last = records.last();
        assert forall|i: int| 0 <= i < front.len() implies resolve(
            data,
            (#[trigger] front[i]).offset,
        ) == Some(front[i].content) by {
            assert(front[i] == records[i]);
        }
        lemma_scan_indexed(data, key, front);
        assert(resolve(data, records[records.len() - 1].offset) == Some(last.content));
        match last.content {
            ContentView::Data(keys, payload) => {
                lemma_scan_placed(data, key, last.offset, keys, payload, keys);
                lemma_scan_concat(data, key, indexed(front, b), placed(keys, last.offset, b));
            },
            ContentView::Extension(_) => {
                assert(Seq::<Hit>::empty() + history(front, key) =~= history(front, key));
            },
        }
    }
}

/// Walking the link log from `head` finds what scanning the chain's entries
/// finds.
pub proof fn lemma_walk_is_scan(link: Seq<u8>, data: Seq<u8>, key: Seq<u8>, head: Offset)
    requires
        chain(link, head) is Some,
    ensures
        walk(link, data, key, head) == scan(data, key, chain(link, head)->0),
    decreases head.value,
{
    if head.value != 0 {
        let (entries, previous) = link_resolve(link, head)->0;
        lemma_walk_is_scan(link, data, key, previous);
        lemma_scan_concat(data, key, chain(link, previous)->0, entries);
    }
}

/// Where the content log parses and the index holds exactly its records, a
/// lookup finds the history of the key.
pub proof fn lemma_lookup_is_history(mem: MemTable, link: Seq<u8>, data: Seq<u8>, key: Seq<u8>)
    requires
        mem.wf(),
        data.len() <= MAX_OFFSET,
        records_from(data, 0) is Ok,
        index_matches(mem, link, records(data)),
    ensures
        mem.lookup(link, data, key) == finds(history(records(data), key)),
{
    let b = bucket_of(key);
    let rs = records(data);
    assert(bucket_chain(mem, link, b) == Some(indexed(rs, b)));
    let stored = chain(link, mem.heads@[b])->0;
    lemma_walk_is_scan(link, data, key, mem.heads@[b]);
    lemma_scan_concat(data, key, stored, mem.pending@[b]@);
    lemma_records_from_resolve(data, 0);
    lemma_scan_indexed(data, key, rs);
}

} // verus!
