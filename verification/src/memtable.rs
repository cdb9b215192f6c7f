//! The write-back index: the heads of all buckets as the table last held
//! them, and for each bucket the chain entries that were put since.
//!
//! A key belongs to the bucket that its hash selects. Looking a key up walks
//! the bucket's chain from the newest entry to the oldest: first the entries
//! that are still pending, then the records of the link log from the bucket's
//! head backwards.

use vstd::prelude::*;
use crate::bytes::lemma_bytes_view;
use crate::datafile::DataFile;
use crate::error::BCDBError;
use crate::flushing::{
    chains_kept, flush_size, flushed_link, flushed_log, flushed_upto, heads_mirror, heads_upto,
    lemma_flush_mirror, lemma_flush_size_grows, lemma_flush_skip, lemma_flush_take,
    lemma_flushed_skip, lemma_flushed_take, lemma_redone_step, new_head, redone, stops_at,
};
use crate::hashing::{bucket_of, hash, hash_key};
use crate::linkfile::{chain, entries_valid, link_bytes, LinkFile};
use crate::logfile::{lemma_log_pages_len, log_pages, LogFile, LOG_PAGE_SIZE};
use crate::offset::Offset;
use crate::table::{
    bucket_at, heads_valid, lemma_patched_buckets, make_page, TableFile, BUCKETS,
    BUCKETS_PER_PAGE,
};
use crate::walk::{
    all_of, first_of, lemma_then_assoc, lemma_then_nothing, scan, scan_first, scan_into, then,
    walk, Hit, Trail,
};

verus! {

/// The chain entries that putting `keys` for the record at `offset` adds to
/// bucket `b`, in the order of the keys.
pub open spec fn placed(keys: Seq<Seq<u8>>, offset: Offset, b: int) -> Seq<(u32, Offset)>
    decreases keys.len(),
{
    if keys.len() == 0 {
        Seq::empty()
    } else if bucket_of(keys.last()) == b {
        placed(keys.drop_last(), offset, b).push((hash(keys.last()), offset))
    } else {
        placed(keys.drop_last(), offset, b)
    }
}

/// The write-back index.
pub struct MemTable {
    /// For each bucket the address of the newest link record of its chain,
    /// as the table holds it.
    pub heads: Vec<Offset>,
    /// For each bucket the entries put since the last flush, oldest first.
    pub pending: Vec<Vec<(u32, Offset)>>,
}

/// For each bucket an empty list of pending entries.
fn no_pending() -> (r: Vec<Vec<(u32, Offset)>>)
    ensures
        r@.len() == BUCKETS,
        forall|b: int| 0 <= b < BUCKETS ==> (#[trigger] r@[b])@.len() == 0,
{
    let mut r: Vec<Vec<(u32, Offset)>> = Vec::new();
    let mut b: usize = 0;
    while b < BUCKETS
        invariant
            b <= BUCKETS,
            r@.len() == b,
            forall|c: int| 0 <= c < b ==> (#[trigger] r@[c])@.len() == 0,
        decreases BUCKETS - b,
    {
        r.push(Vec::new());
        b += 1;
    }
    r
}

impl MemTable {
    /// There is a head and a list of pending entries for every bucket, and
    /// every address fits in 48 bits.
    pub open spec fn wf(&self) -> bool {
        &&& self.heads@.len() == BUCKETS
        &&& self.pending@.len() == BUCKETS
        &&& heads_valid(self.heads@)
        &&& forall|b: int| 0 <= b < BUCKETS ==> entries_valid((#[trigger] self.pending@[b])@)
    }

    /// Whether no bucket has pending entries.
    pub open spec fn clean(&self) -> bool {
        forall|b: int| 0 <= b < BUCKETS ==> (#[trigger] self.pending@[b])@.len() == 0
    }

    /// Whether the heads are those that `table` holds.
    pub open spec fn mirrors(&self, table: Seq<u8>) -> bool {
        heads_mirror(self.heads@, table)
    }

    /// What a lookup of `key` yields: the records that have `key`, newest
    /// first, as far as the chain of the key's bucket can be walked.
    pub open spec fn lookup(&self, link: Seq<u8>, data: Seq<u8>, key: Seq<u8>) -> Trail {
        then(
            scan(data, key, self.pending@[bucket_of(key)]@),
            walk(link, data, key, self.heads@[bucket_of(key)]),
        )
    }

    /// The index of a table without pages: every bucket empty.
    pub fn new() -> (r: MemTable)
        ensures
            r.wf(),
            r.clean(),
            forall|b: int| 0 <= b < BUCKETS ==> (#[trigger] r.heads@[b]).value == 0,
    {
        let mut heads: Vec<Offset> = Vec::new();
        let mut b: usize = 0;
        while b < BUCKETS
            invariant
                b <= BUCKETS,
                heads@.len() == b,
                forall|c: int| 0 <= c < b ==> (#[trigger] heads@[c]).value == 0,
            decreases BUCKETS - b,
        {
            heads.push(Offset { value: 0 });
            b += 1;
        }
        MemTable { heads, pending: no_pending() }
    }

    /// Reads every bucket of `table`.
    pub fn load(table: &TableFile) -> (r: MemTable)
        ensures
            r.wf(),
            r.clean(),
            r.mirrors(table@),
    {
        let mut heads: Vec<Offset> = Vec::new();
        let mut b: usize = 0;
        while b < BUCKETS
            invariant
                b <= BUCKETS,
                heads@.len() == b,
                heads_valid(heads@),
                forall|c: int| 0 <= c < b ==> #[trigger] bucket_at(table@, c) == heads@[c],
            decreases BUCKETS - b,
        {
            heads.push(table.read_bucket(b));
            b += 1;
        }
        MemTable { heads, pending: no_pending() }
    }

    /// Adds, for each of `keys`, a chain entry for the record at `offset` to
    /// the key's bucket. Nothing is written to the regions.
    pub fn put(&mut self, keys: &Vec<Vec<u8>>, offset: Offset)
        requires
            old(self).wf(),
            offset.valid(),
        ensures
            final(self).wf(),
            final(self).heads@ == old(self).heads@,
            forall|b: int|
                0 <= b < BUCKETS ==> (#[trigger] final(self).pending@[b])@ == old(
                    self,
                ).pending@[b]@ + placed(keys.deep_view(), offset, b),
    {
        let mut i: usize = 0;
        proof {
            assert(keys.deep_view().subrange(0, 0) =~= Seq::<Seq<u8>>::empty());
            assert forall|b: int| 0 <= b < BUCKETS implies (#[trigger] self.pending@[b])@ == old(
                self,
            ).pending@[b]@ + placed(keys.deep_view().subrange(0, 0), offset, b) by {
                assert(self.pending@[b]@ + Seq::<(u32, Offset)>::empty() =~= self.pending@[b]@);
            }
        }
        while i < keys.len()
            invariant
                i <= keys@.len(),
                offset.valid(),
                self.wf(),
                self.heads@ == old(self).heads@,
                forall|b: int|
                    0 <= b < BUCKETS ==> (#[trigger] self.pending@[b])@ == old(
                        self,
                    ).pending@[b]@ + placed(keys.deep_view().subrange(0, i as int), offset, b),
            decreases keys@.len() - i,
        {
            let h = hash_key(keys[i].as_slice());
            let slot = (h as usize) % BUCKETS;
            let ghost before = self.pending@;
            self.pending[slot].push((h, offset));
            proof {
                lemma_bytes_view(keys@[i as int]);
                let upto = keys.deep_view().subrange(0, i + 1);
                let sofar = keys.deep_view().subrange(0, i as int);
                assert(upto.drop_last() =~= sofar);
                assert(upto.last() == keys@[i as int]@);
                assert forall|b: int| 0 <= b < BUCKETS implies (#[trigger] self.pending@[b])@
                    == old(self).pending@[b]@ + placed(upto, offset, b) by {
                    if b == slot {
                        assert(self.pending@[b]@ == before[b]@.push((h, offset)));
                        assert((old(self).pending@[b]@ + placed(sofar, offset, b)).push(
                            (h, offset),
                        ) =~= old(self).pending@[b]@ + placed(sofar, offset, b).push((h, offset)));
                    } else {
                        assert(self.pending@[b] == before[b]);
                    }
                }
                assert forall|b: int| 0 <= b < BUCKETS implies entries_valid(
                    (#[trigger] self.pending@[b])@,
                ) by {
                    if b == slot {
                        assert(entries_valid(before[b]@));
                    } else {
                        assert(self.pending@[b] == before[b]);
                    }
                }
            }
            i += 1;
        }
        assert(keys.deep_view().subrange(0, i as int) =~= keys.deep_view());
    }

    /// The records that have `key` among their keys, newest first. A chain
    /// entry or link record on the way that does not decode fails the whole
    /// lookup with `Corrupted` and its address.
    pub fn get(&self, key: &[u8], data: &DataFile, link: &LinkFile) -> (r: Result<
        Vec<(Offset, Vec<Vec<u8>>, Vec<u8>)>,
        BCDBError,
    >)
        requires
            self.wf(),
        ensures
            all_of(self.lookup(link@, data@, key@), r),
    {
        let h = hash_key(key);
        let slot = (h as usize) % BUCKETS;
        let mut out: Vec<(Offset, Vec<Vec<u8>>, Vec<u8>)> = Vec::new();
        assert(out.deep_view() =~= Seq::<Hit>::empty());
        match scan_into(&self.pending[slot], key, h, data, &mut out) {
            Err(e) => {
                return Err(e);
            },
            Ok(()) => {},
        }
        let mut cur = self.heads[slot];
        let ghost mut seen = scan(data@, key@, self.pending@[slot as int]@);
        proof {
            assert(Seq::<Hit>::empty() + seen.found =~= seen.found);
        }
        while cur.value != 0
            invariant
                h == hash(key@),
                seen.failed is None,
                out.deep_view() == seen.found,
                self.lookup(link@, data@, key@) == then(seen, walk(link@, data@, key@, cur)),
            decreases cur.value,
        {
            match link.get_link(cur) {
                Err(e) => {
                    return Err(e);
                },
                Ok((entries, previous)) => {
                    if previous.value >= cur.value {
                        return Err(BCDBError::Corrupted(cur));
                    }
                    proof {
                        lemma_then_assoc(
                            seen,
                            scan(data@, key@, entries@),
                            walk(link@, data@, key@, previous),
                        );
                    }
                    match scan_into(&entries, key, h, data, &mut out) {
                        Err(e) => {
                            return Err(e);
                        },
                        Ok(()) => {},
                    }
                    proof {
                        seen = then(seen, scan(data@, key@, entries@));
                    }
                    cur = previous;
                },
            }
        }
        proof {
            lemma_then_nothing(seen);
        }
        Ok(out)
    }

    /// The newest record that has `key` among its keys, if there is one: the
    /// first that `get` would find. The walk ends there, so that an older
    /// part of the chain that does not decode is not seen.
    pub fn get_unique(&self, key: &[u8], data: &DataFile, link: &LinkFile) -> (r: Result<
        Option<(Offset, Vec<Vec<u8>>, Vec<u8>)>,
        BCDBError,
    >)
        requires
            self.wf(),
        ensures
            first_of(self.lookup(link@, data@, key@), r),
    {
        let h = hash_key(key);
        let slot = (h as usize) % BUCKETS;
        match scan_first(&self.pending[slot], key, h, data) {
            Err(e) => {
                return Err(e);
            },
            Ok(Some(item)) => {
                return Ok(Some(item));
            },
            Ok(None) => {},
        }
        let mut cur = self.heads[slot];
        proof {
            lemma_then_nothing(walk(link@, data@, key@, cur));
        }
        while cur.value != 0
            invariant
                h == hash(key@),
                self.lookup(link@, data@, key@) == walk(link@, data@, key@, cur),
            decreases cur.value,
        {
            match link.get_link(cur) {
                Err(e) => {
                    return Err(e);
                },
                Ok((entries, previous)) => {
                    if previous.value >= cur.value {
                        return Err(BCDBError::Corrupted(cur));
                    }
                    match scan_first(&entries, key, h, data) {
                        Err(e) => {
                            return Err(e);
                        },
                        Ok(Some(item)) => {
                            return Ok(Some(item));
                        },
                        Ok(None) => {},
                    }
                    proof {
                        lemma_then_nothing(walk(link@, data@, key@, previous));
                    }
                    cur = previous;
                },
            }
        }
        Ok(None)
    }

    /// The heads of all buckets, in the order of the buckets.
    pub fn iter(&self) -> (r: Vec<Offset>)
        ensures
            r@ == self.heads@,
    {
        let mut r: Vec<Offset> = Vec::new();
        let mut b: usize = 0;
        while b < self.heads.len()
            invariant
                b <= self.heads@.len(),
                r@ == self.heads@.subrange(0, b as int),
            decreases self.heads@.len() - b,
        {
            r.push(self.heads[b]);
            b += 1;
        }
        assert(self.heads@.subrange(0, b as int) =~= self.heads@);
        r
    }

    /// Writes the pending entries out. For every bucket that has any, in the
    /// order of the buckets: the entries become a new record of the link log
    /// that continues the bucket's chain, the record's address becomes the
    /// bucket's head, the image of the table page with that head is appended
    /// to the recovery log, and then the page is patched in the table. When
    /// all are written, nothing is pending any more.
    ///
    /// Fails with `IO` when the link log cannot take a record: the buckets
    /// before that one are flushed then, and their entries still pending.
    pub fn flush(&mut self, log: &mut LogFile, table: &mut TableFile, link: &mut LinkFile) -> (r:
        Result<(), BCDBError>)
        requires
            old(self).wf(),
            old(log).wf(),
            old(table).wf(),
            old(link).wf(),
        ensures
            final(self).wf(),
            final(log).wf(),
            final(table).wf(),
            final(link).wf(),
            final(link).limit == old(link).limit,
            r is Ok <==> old(link)@.len() + flush_size(old(self).pending@, BUCKETS as int) <= old(
                link,
            ).limit,
            r is Err ==> {
                &&& r == Err::<(), BCDBError>(BCDBError::IO)
                &&& final(self).pending@ == old(self).pending@
                &&& exists|k: int| #[trigger]
                    stops_at(
                        old(link)@.len() as int,
                        old(link).limit as int,
                        old(self).pending@,
                        k,
                    ) && flushed_upto(
                        old(self).heads@,
                        old(self).pending@,
                        old(link)@,
                        old(log)@,
                        old(table)@,
                        final(self).heads@,
                        final(link)@,
                        final(log)@,
                        final(table)@,
                        k,
                    )
            },
            r is Ok ==> {
                &&& final(self).clean()
                &&& flushed_upto(
                    old(self).heads@,
                    old(self).pending@,
                    old(link)@,
                    old(log)@,
                    old(table)@,
                    final(self).heads@,
                    final(link)@,
                    final(log)@,
                    final(table)@,
                    BUCKETS as int,
                )
                &&& final(link)@.len() == old(link)@.len() + flush_size(
                    old(self).pending@,
                    BUCKETS as int,
                )
                &&& old(self).clean() ==> final(self).heads@ == old(self).heads@ && final(table)@
                    == old(table)@ && final(log)@ == old(log)@ && final(link)@ == old(link)@
                &&& old(self).mirrors(old(table)@) ==> final(self).mirrors(final(table)@)
                &&& log_pages(old(log)@) is Ok ==> redone(
                    old(log)@,
                    final(log)@,
                    old(table)@,
                    final(table)@,
                )
                &&& forall|b: int|
                    0 <= b < BUCKETS && chain(old(link)@, old(self).heads@[b]) is Some
                        ==> #[trigger] chain(final(link)@, final(self).heads@[b]) == Some(
                        chain(old(link)@, old(self).heads@[b])->0 + old(self).pending@[b]@,
                    )
            },
    {
        let ghost heads0 = self.heads@;
        let ghost pending0 = self.pending@;
        let ghost link0 = link@;
        let ghost log0 = log@;
        let ghost table0 = table@;
        let ghost mut touched = false;
        let mut b: usize = 0;
        proof {
            assert(link@ + flushed_link(heads0, pending0, 0) =~= link@);
            assert(log@ + flushed_log(heads0, link0.len() as int, pending0, 0) =~= log@);
            assert(heads_upto(heads0, link0.len() as int, pending0, 0) =~= heads0);
            if log_pages(log0) is Ok {
                lemma_log_pages_len(log0, log0.len() / (LOG_PAGE_SIZE as nat));
            }
        }
        while b < BUCKETS
            invariant
                b <= BUCKETS,
                self.wf(),
                log.wf(),
                table.wf(),
                link.wf(),
                old(self).wf(),
                heads0 == old(self).heads@,
                pending0 == old(self).pending@,
                link0 == old(link)@,
                link.limit == old(link).limit,
                log0 == old(log)@,
                table0 == old(table)@,
                self.pending@ == pending0,
                flushed_upto(
                    heads0,
                    pending0,
                    link0,
                    log0,
                    table0,
                    self.heads@,
                    link@,
                    log@,
                    table@,
                    b as int,
                ),
                flushed_link(heads0, pending0, b as int).len() == flush_size(pending0, b as int),
                touched ==> !old(self).clean(),
                !touched ==> self.heads@ == heads0 && table@ == table0 && log@ == log0 && link@
                    == link0,
                old(self).mirrors(table0) ==> self.mirrors(table@),
                log_pages(log0) is Ok ==> redone(log0, log@, table0, table@),
                chains_kept(heads0, pending0, link0, self.heads@, link@, b as int),
            decreases BUCKETS - b,
        {
            let ghost heads_before = self.heads@;
            let ghost table_before = table@;
            let ghost log_before = log@;
            let ghost more = flushed_link(heads0, pending0, b as int);
            if self.pending[b].len() > 0 {
                let previous = self.heads[b];
                assert(previous == heads0[b as int]);
                match link.append(&self.pending[b], previous) {
                    Err(e) => {
                        proof {
                            assert(stops_at(
                                link0.len() as int,
                                link.limit as int,
                                pending0,
                                b as int,
                            ));
                            lemma_flush_size_grows(pending0, b + 1, BUCKETS as int);
                        }
                        return Err(e);
                    },
                    Ok(head) => {
                        self.heads.set(b, head);
                        let page = b / BUCKETS_PER_PAGE;
                        let image = make_page(&self.heads, page);
                        log.append_page(page as u64, image.as_slice());
                        match table.patch_page(page as u64, image.as_slice()) {
                            Err(e) => {
                                return Err(e);
                            },
                            Ok(()) => {},
                        }
                        proof {
                            let rec = link_bytes(pending0[b as int]@, previous);
                            lemma_flush_take(
                                heads0,
                                pending0,
                                link0,
                                heads_before,
                                more,
                                rec,
                                head,
                                b as int,
                            );
                            if old(self).mirrors(table0) {
                                lemma_flush_mirror(heads_before, table_before, head, b as int);
                            }
                            if log_pages(log0) is Ok {
                                lemma_redone_step(
                                    log0,
                                    log_before,
                                    table0,
                                    table_before,
                                    page as int,
                                    image@,
                                );
                            }
                            lemma_patched_buckets(table_before, page as int, self.heads@);
                            lemma_flushed_take(
                                heads0,
                                pending0,
                                link0,
                                log0,
                                table0,
                                heads_before,
                                link0 + more,
                                log_before,
                                table_before,
                                b as int,
                            );
                            assert(link@ =~= link0 + (more + rec));
                            assert(head == new_head(link0.len() as int, pending0, b as int));
                            touched = true;
                        }
                    },
                }
            } else {
                proof {
                    lemma_flush_skip(heads0, pending0, link0, self.heads@, more, b as int);
                    lemma_flushed_skip(
                        heads0,
                        pending0,
                        link0,
                        log0,
                        table0,
                        self.heads@,
                        link@,
                        log@,
                        table@,
                        b as int,
                    );
                }
            }
            b += 1;
        }
        self.pending = no_pending();
        Ok(())
    }
}

} // verus!

