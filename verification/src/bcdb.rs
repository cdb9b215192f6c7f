//! The engine: it owns the four regions and the write-back index, recovers
//! at open and commits at each batch.
//!
//! A batch is all or nothing. What was put is in the content log at once; the
//! index reaches the link log and the table only when the batch ends, and the
//! recovery log then records the lengths of the three other regions. At open
//! the regions are cut back to the lengths recorded last, and the table pages
//! that the recovery log holds after them are written again.

use vstd::prelude::*;
use crate::bytes::lemma_keys_empty;
use crate::datafile::{
    content_bytes, fits, lemma_record_size, lemma_records_from_resolve,
    lemma_records_from_written, listed, listing, records, records_from, resolve, Content,
    ContentView, DataFile, Stored, KIND_DATA, KIND_EXTENSION, PAYLOAD_LIMIT,
};
use crate::error::BCDBError;
use crate::linkfile::{chain, link_listing, link_resolve, links_from, LinkFile};
use crate::logfile::{
    lemma_replay_err, log_pages, pages_view, replay, snapshot_bytes, LogFile, LogPage,
    LogPageView,
};
use crate::flushing::{
    flush_size, flushed_link, flushed_table, flushed_upto, heads_upto, lemma_flush_size_clean,
    stops_at,
};
use crate::memtable::{placed, MemTable};
use crate::walk::{all_of, first_of};
use crate::model::{
    ascending, bucket_chain, history, index_matches, indexed, lemma_clean_index_matches,
    lemma_indexed_push, lemma_lookup_is_history, regions_agree,
};
use crate::offset::{Offset, MAX_OFFSET};
use crate::table::{bucket_at, truncated, TableFile, BUCKETS, PAGE_SIZE};

verus! {

/// Where the engine stands between two commits.
#[derive(Clone, Copy, Debug, PartialEq, Eq, Structural)]
pub enum BatchState {
    /// Puts are taken; a batch can be committed.
    Open,
    /// A commit began and did not end: the engine is to be reopened.
    Committing,
    /// The engine was shut down.
    Closed,
}

/// The store.
pub struct BCDB {
    pub mem: MemTable,
    pub table: TableFile,
    pub link: LinkFile,
    pub data: DataFile,
    pub log: LogFile,
    pub state: BatchState,
}

/// Creates a store by name. What the name selects is up to the one who
/// implements this.
pub trait BCDBFactory {
    /// A store that is ready to take puts.
    fn new_db(name: &str) -> (r: Result<BCDB, BCDBError>)
        ensures
            r matches Ok(db) ==> db.wf() && db.is_open(),
    ;
}

/// The operations of a store. What they promise is said over the records
/// that the store holds, for a store whose parts agree.
pub trait BCDBAPI {
    /// Whether the store is intact as a structure.
    spec fn valid(&self) -> bool;

    /// Whether the store takes puts and batches: it was not shut down, and no
    /// commit has failed.
    spec fn ready(&self) -> bool;

    /// Whether the parts of the store agree with each other, as they do
    /// unless what was stored earlier has been damaged.
    spec fn consistent(&self) -> bool;

    /// The records that the store holds, oldest first.
    spec fn records(&self) -> Seq<Stored>;

    /// Makes a store that was just created empty.
    fn init(&mut self) -> (r: Result<(), BCDBError>)
        requires
            old(self).valid(),
        ensures
            final(self).valid(),
            final(self).ready() == old(self).ready(),
            r is Ok ==> final(self).records() == Seq::<Stored>::empty(),
    ;

    /// Commits what was put since the last batch and starts the next one.
    /// The records stay what they are.
    fn batch(&mut self) -> (r: Result<(), BCDBError>)
        requires
            old(self).valid(),
            old(self).ready(),
        ensures
            final(self).valid(),
            r is Ok ==> final(self).ready(),
            r is Err ==> !final(self).ready(),
            final(self).records() == old(self).records(),
            old(self).consistent() && r is Ok ==> final(self).consistent(),
    ;

    /// Ends the use of the store.
    fn shutdown(&mut self)
        requires
            old(self).valid(),
        ensures
            final(self).valid(),
            !final(self).ready(),
            final(self).records() == old(self).records(),
            final(self).consistent() == old(self).consistent(),
    ;

    /// Stores `data` under every one of `keys` and returns the address of the
    /// record, which is greater than that of every record before. What was
    /// stored under a key before stays in its history.
    ///
    /// Fails with `DoesNotFit` for more than 255 keys, a key of more than 255
    /// bytes or a payload of 2^23 bytes or more, whatever the store holds.
    fn put(&mut self, keys: Vec<Vec<u8>>, data: &[u8]) -> (r: Result<Offset, BCDBError>)
        requires
            old(self).valid(),
            old(self).ready(),
        ensures
            final(self).valid(),
            final(self).ready(),
            r == Err::<Offset, BCDBError>(BCDBError::DoesNotFit) <==> !fits(keys.deep_view(), data@),
            r is Err ==> final(self).records() == old(self).records() && final(self).consistent()
                == old(self).consistent(),
            old(self).consistent() ==> (r matches Ok(o) ==> {
                &&& final(self).consistent()
                &&& final(self).records() == old(self).records().push(
                    Stored { offset: o, content: ContentView::Data(keys.deep_view(), data@) },
                )
                &&& ascending(final(self).records())
            }),
    ;

    /// The records stored under `key`, newest first: the history of the key.
    fn get(&self, key: &[u8]) -> (r: Result<Vec<(Offset, Vec<Vec<u8>>, Vec<u8>)>, BCDBError>)
        requires
            self.valid(),
        ensures
            self.consistent() ==> (r matches Ok(found) && found.deep_view() == history(
                self.records(),
                key@,
            )),
    ;

    /// The newest record stored under `key`: the first of the key's history.
    fn get_unique(&self, key: &[u8]) -> (r: Result<
        Option<(Offset, Vec<Vec<u8>>, Vec<u8>)>,
        BCDBError,
    >)
        requires
            self.valid(),
        ensures
            self.consistent() ==> r is Ok && match r->Ok_0 {
                Some(first) => history(self.records(), key@).len() > 0 && first.deep_view()
                    == history(self.records(), key@)[0],
                None => history(self.records(), key@).len() == 0,
            },
    ;

    /// Stores `data` without a key and returns the address of the record,
    /// by which alone it can be had again.
    ///
    /// Fails with `DoesNotFit` for a payload of 2^23 bytes or more, whatever
    /// the store holds.
    fn put_content(&mut self, data: &[u8]) -> (r: Result<Offset, BCDBError>)
        requires
            old(self).valid(),
            old(self).ready(),
        ensures
            final(self).valid(),
            final(self).ready(),
            r == Err::<Offset, BCDBError>(BCDBError::DoesNotFit) <==> data@.len() >= PAYLOAD_LIMIT,
            r is Err ==> final(self).records() == old(self).records() && final(self).consistent()
                == old(self).consistent(),
            old(self).consistent() ==> (r matches Ok(o) ==> {
                &&& final(self).consistent()
                &&& final(self).records() == old(self).records().push(
                    Stored { offset: o, content: ContentView::Extension(data@) },
                )
                &&& ascending(final(self).records())
            }),
    ;

    /// Keys and payload of the record at `offset`; no keys for a record that
    /// was stored without.
    fn get_content(&self, offset: Offset) -> (r: Result<(Vec<Vec<u8>>, Vec<u8>), BCDBError>)
        requires
            self.valid(),
        ensures
            self.consistent() ==> forall|i: int|
                0 <= i < self.records().len() && (#[trigger] self.records()[i]).offset == offset
                    ==> (r matches Ok(found) && (offset, found.0.deep_view(), found.1@) == listed(
                    self.records()[i],
                )),
    ;
}

/// Table, content log and link log as recovery leaves them. With an empty
/// recovery log they stay as they are. Else the first page has to be a
/// snapshot, and the table length it records a number of whole pages: the
/// three regions are cut back to its lengths, and the pages after it are
/// replayed onto the table. A page with an unknown tag is `Corrupted` with
/// its number, and so is a first page that is a patch.
pub open spec fn recovered(log: Seq<u8>, table: Seq<u8>, data: Seq<u8>, link: Seq<u8>) -> Result<
    (Seq<u8>, Seq<u8>, Seq<u8>),
    BCDBError,
> {
    match log_pages(log) {
        Err(index) => Err(BCDBError::Corrupted(Offset { value: index as u64 })),
        Ok(pages) => {
            if pages.len() == 0 {
                Ok((table, data, link))
            } else {
                match pages[0] {
                    LogPageView::PagePatch { .. } => Err(
                        BCDBError::Corrupted(Offset { value: 0 }),
                    ),
                    LogPageView::LengthSnapshot { data_len, table_len, link_len } => {
                        if table_len % (PAGE_SIZE as int) != 0 {
                            Err(BCDBError::Corrupted(Offset { value: table_len as u64 }))
                        } else {
                            match replay(truncated(table, table_len), pages, 1, pages.len() as int) {
                                Err(e) => Err(e),
                                Ok(t) => Ok(
                                    (t, truncated(data, data_len), truncated(link, link_len)),
                                ),
                            }
                        }
                    },
                }
            }
        },
    }
}

/// A put keeps the parts of the store in agreement and adds its record at
/// the end of the records.
pub proof fn lemma_put_keeps_inv(
    before: BCDB,
    after: BCDB,
    keys: Seq<Seq<u8>>,
    payload: Seq<u8>,
    o: Offset,
)
    requires
        before.inv(),
        after.wf(),
        fits(keys, payload),
        before.data@.len() + content_bytes(ContentView::Data(keys, payload)).len() <= MAX_OFFSET,
        o.value == before.data@.len() + 1,
        after.data@ == before.data@ + content_bytes(ContentView::Data(keys, payload)),
        after.link@ == before.link@,
        after.table@ == before.table@,
        after.mem.heads@ == before.mem.heads@,
        forall|b: int|
            0 <= b < BUCKETS ==> (#[trigger] after.mem.pending@[b])@ == before.mem.pending@[b]@
                + placed(keys, o, b),
    ensures
        after.inv(),
        after@ == before@.push(Stored { offset: o, content: ContentView::Data(keys, payload) }),
{
    let content = ContentView::Data(keys, payload);
    let added = Stored { offset: o, content };
    let rs = records(before.data@);
    lemma_records_from_written(before.data@, 0, content);
    assert(records(after.data@) == rs.push(added));
    assert forall|b: int| 0 <= b < BUCKETS implies #[trigger] bucket_chain(
        after.mem,
        after.link@,
        b,
    ) == Some(indexed(rs.push(added), b)) by {
        lemma_indexed_push(rs, added, b);
        assert(bucket_chain(before.mem, before.link@, b) == Some(indexed(rs, b)));
        let stored = chain(after.link@, after.mem.heads@[b])->0;
        assert(after.mem.pending@[b]@ == before.mem.pending@[b]@ + placed(keys, o, b));
        assert(stored + (before.mem.pending@[b]@ + placed(keys, o, b)) =~= (stored
            + before.mem.pending@[b]@) + placed(keys, o, b));
    }
}

/// A record without keys leaves every chain as it is and stands at the end
/// of the records.
pub proof fn lemma_put_content_keeps_inv(before: BCDB, after: BCDB, payload: Seq<u8>, o: Offset)
    requires
        before.inv(),
        after.wf(),
        payload.len() < PAYLOAD_LIMIT,
        before.data@.len() + content_bytes(ContentView::Extension(payload)).len() <= MAX_OFFSET,
        o.value == before.data@.len() + 1,
        after.data@ == before.data@ + content_bytes(ContentView::Extension(payload)),
        after.link@ == before.link@,
        after.table@ == before.table@,
        after.mem == before.mem,
    ensures
        after.inv(),
        after@ == before@.push(Stored { offset: o, content: ContentView::Extension(payload) }),
{
    let content = ContentView::Extension(payload);
    let added = Stored { offset: o, content };
    let rs = records(before.data@);
    lemma_records_from_written(before.data@, 0, content);
    assert(records(after.data@) == rs.push(added));
    assert forall|b: int| 0 <= b < BUCKETS implies #[trigger] bucket_chain(
        after.mem,
        after.link@,
        b,
    ) == Some(indexed(rs.push(added), b)) by {
        lemma_indexed_push(rs, added, b);
        assert(bucket_chain(before.mem, before.link@, b) == Some(indexed(rs, b)));
    }
}

/// A flush keeps the parts of the store in agreement: each chain moves from
/// the index to the link log and holds what it held.
pub proof fn lemma_flush_keeps_inv(before: BCDB, after: BCDB)
    requires
        before.inv(),
        after.wf(),
        after.data@ == before.data@,
        after.mem.clean(),
        after.mem.mirrors(after.table@),
        forall|b: int|
            0 <= b < BUCKETS && chain(before.link@, before.mem.heads@[b]) is Some
                ==> #[trigger] chain(after.link@, after.mem.heads@[b]) == Some(
                chain(before.link@, before.mem.heads@[b])->0 + before.mem.pending@[b]@,
            ),
    ensures
        after.inv(),
        after@ == before@,
{
    let rs = records(after.data@);
    assert forall|b: int| 0 <= b < BUCKETS implies #[trigger] bucket_chain(
        after.mem,
        after.link@,
        b,
    ) == Some(indexed(rs, b)) by {
        assert(bucket_chain(before.mem, before.link@, b) == Some(indexed(rs, b)));
        let stored = chain(before.link@, before.mem.heads@[b])->0;
        assert(chain(after.link@, after.mem.heads@[b]) == Some(
            stored + before.mem.pending@[b]@,
        ));
        assert(after.mem.pending@[b]@.len() == 0);
        assert((stored + before.mem.pending@[b]@) + after.mem.pending@[b]@ =~= stored
            + before.mem.pending@[b]@);
    }
}

impl View for BCDB {
    type V = Seq<Stored>;

    /// The records of the content log, oldest first.
    open spec fn view(&self) -> Seq<Stored> {
        records(self.data@)
    }
}

impl BCDB {
    /// Every part is intact as a structure. This says nothing yet of whether
    /// the parts agree with each other.
    pub open spec fn wf(&self) -> bool {
        &&& self.mem.wf()
        &&& self.table.wf()
        &&& self.link.wf()
        &&& self.data.wf()
        &&& self.log.wf()
    }

    /// Whether puts and batches are taken.
    pub open spec fn is_open(&self) -> bool {
        self.state == BatchState::Open
    }

    /// The parts agree: the content log parses to its end, the chains of
    /// index and link log hold exactly the entries of its records, and the
    /// heads of the index are those of the table.
    pub open spec fn inv(&self) -> bool {
        &&& self.wf()
        &&& records_from(self.data@, 0) is Ok
        &&& index_matches(self.mem, self.link@, records(self.data@))
        &&& self.mem.mirrors(self.table@)
    }

    /// Nothing is pending, and the recovery log holds the snapshot of the
    /// regions as they are and nothing else.
    pub open spec fn committed(&self) -> bool {
        &&& self.mem.clean()
        &&& self.log@ == snapshot_bytes(
            self.data@.len() as int,
            self.table@.len() as int,
            self.link@.len() as int,
        )
    }

    /// Whether the store is open for puts and batches.
    pub fn ready_now(&self) -> (r: bool)
        ensures
            r == self.is_open(),
    {
        match self.state {
            BatchState::Open => true,
            _ => false,
        }
    }

    /// Opens a store over its four regions: recovers them, loads the index
    /// from the recovered table and commits a first, empty batch.
    pub fn new(log: LogFile, table: TableFile, data: DataFile, link: LinkFile) -> (r: Result<
        BCDB,
        BCDBError,
    >)
        requires
            log.wf(),
            table.wf(),
            data.wf(),
            link.wf(),
        ensures
            match recovered(log@, table@, data@, link@) {
                Err(e) => r == Err::<BCDB, BCDBError>(e),
                Ok((t, d, l)) => r matches Ok(db) && {
                    &&& db.wf()
                    &&& db.is_open()
                    &&& db.data.limit == data.limit
                    &&& db.link.limit == link.limit
                    &&& db.table@ == t
                    &&& db.data@ == d
                    &&& db.link@ == l
                    &&& db.mem.mirrors(t)
                    &&& db.committed()
                    &&& db.inv() <==> regions_agree(t, d, l)
                },
            },
    {
        let mut db = BCDB { mem: MemTable::new(), table, link, data, log, state: BatchState::Open };
        match db.recover() {
            Err(e) => {
                return Err(e);
            },
            Ok(()) => {},
        }
        proof {
            lemma_flush_size_clean(db.mem.pending@, BUCKETS as int);
        }
        match db.batch() {
            Err(e) => Err(e),
            Ok(()) => {
                proof {
                    lemma_clean_index_matches(db.mem, db.table@, db.data@, db.link@);
                }
                Ok(db)
            },
        }
    }

    /// Brings table, content log and link log back to where the last
    /// completed batch left them, and loads the index from the table.
    fn recover(&mut self) -> (r: Result<(), BCDBError>)
        requires
            old(self).wf(),
        ensures
            final(self).wf(),
            final(self).state == old(self).state,
            final(self).log@ == old(self).log@,
            final(self).data.limit == old(self).data.limit,
            final(self).link.limit == old(self).link.limit,
            match recovered(old(self).log@, old(self).table@, old(self).data@, old(self).link@) {
                Err(e) => r == Err::<(), BCDBError>(e),
                Ok((t, d, l)) => {
                    &&& r is Ok
                    &&& final(self).table@ == t
                    &&& final(self).data@ == d
                    &&& final(self).link@ == l
                    &&& final(self).mem.clean()
                    &&& final(self).mem.mirrors(t)
                },
            },
    {
        let pages = match self.log.page_iter() {
            Err(e) => {
                return Err(e);
            },
            Ok(pages) => pages,
        };
        if pages.len() > 0 {
            assert(pages_view(pages@)[0] == pages@[0]@);
            match &pages[0] {
                LogPage::PagePatch { .. } => {
                    return Err(BCDBError::Corrupted(Offset { value: 0 }));
                },
                LogPage::LengthSnapshot { data_len, table_len, link_len } => {
                    self.data.truncate(*data_len);
                    match self.table.truncate(*table_len) {
                        Err(e) => {
                            return Err(e);
                        },
                        Ok(()) => {},
                    }
                    self.link.truncate(*link_len);
                },
            }
            let ghost start = self.table@;
            let mut i: usize = 1;
            while i < pages.len()
                invariant
                    1 <= i <= pages@.len(),
                    self.wf(),
                    self.state == old(self).state,
                    self.log@ == old(self).log@,
                    self.data.limit == old(self).data.limit,
                    self.link.limit == old(self).link.limit,
                    log_pages(old(self).log@) == Ok::<Seq<LogPageView>, int>(pages_view(pages@)),
                    pages_view(pages@)[0] is LengthSnapshot,
                    pages_view(pages@)[0]->LengthSnapshot_table_len % (PAGE_SIZE as int) == 0,
                    start == truncated(
                        old(self).table@,
                        pages_view(pages@)[0]->LengthSnapshot_table_len,
                    ),
                    replay(start, pages_view(pages@), 1, i as int) == Ok::<Seq<u8>, BCDBError>(
                        self.table@,
                    ),
                    self.data@ == truncated(
                        old(self).data@,
                        pages_view(pages@)[0]->LengthSnapshot_data_len,
                    ),
                    self.link@ == truncated(
                        old(self).link@,
                        pages_view(pages@)[0]->LengthSnapshot_link_len,
                    ),
                decreases pages@.len() - i,
            {
                assert(pages_view(pages@)[i as int] == pages@[i as int]@);
                match &pages[i] {
                    LogPage::LengthSnapshot { .. } => {
                        proof {
                            lemma_replay_err(
                                start,
                                pages_view(pages@),
                                1,
                                i + 1,
                                pages@.len() as int,
                            );
                        }
                        return Err(BCDBError::Corrupted(Offset { value: i as u64 }));
                    },
                    LogPage::PagePatch { page, image } => {
                        match self.table.patch_page(*page, image.as_slice()) {
                            Err(e) => {
                                proof {
                                    lemma_replay_err(
                                        start,
                                        pages_view(pages@),
                                        1,
                                        i + 1,
                                        pages@.len() as int,
                                    );
                                }
                                return Err(e);
                            },
                            Ok(()) => {},
                        }
                    },
                }
                i += 1;
            }
        }
        self.mem = MemTable::load(&self.table);
        Ok(())
    }

    /// Every record of the content log, oldest first, with its address; also
    /// those that a later put to the same key has superseded.
    pub fn data_iterator(&self) -> (r: Result<Vec<(Offset, Vec<Vec<u8>>, Vec<u8>)>, BCDBError>)
        requires
            self.wf(),
        ensures
            match records_from(self.data@, 0) {
                Ok(rs) => r is Ok && r->Ok_0.deep_view() == listing(rs),
                Err(pos) => r == Err::<Vec<(Offset, Vec<Vec<u8>>, Vec<u8>)>, BCDBError>(
                    BCDBError::Corrupted(Offset { value: (pos + 1) as u64 }),
                ),
            },
    {
        self.data.iter()
    }

    /// Every record of the link log, oldest first, with its address; also
    /// those that no chain reaches.
    pub fn link_iterator(&self) -> (r: Result<
        Vec<(Offset, Vec<(u32, Offset)>, Offset)>,
        BCDBError,
    >)
        requires
            self.wf(),
        ensures
            match links_from(self.link@, 0) {
                Ok(links) => r is Ok && link_listing(r->Ok_0@) == links,
                Err(pos) => r == Err::<Vec<(Offset, Vec<(u32, Offset)>, Offset)>, BCDBError>(
                    BCDBError::Corrupted(Offset { value: (pos + 1) as u64 }),
                ),
            },
    {
        self.link.iter()
    }

    /// The link record at `offset`: its entries and the address of the record
    /// before it.
    pub fn get_link(&self, offset: Offset) -> (r: Result<(Vec<(u32, Offset)>, Offset), BCDBError>)
        ensures
            match link_resolve(self.link@, offset) {
                Some((entries, previous)) => r matches Ok(found) && found.0@ == entries && found.1
                    == previous,
                None => r == Err::<(Vec<(u32, Offset)>, Offset), BCDBError>(
                    BCDBError::Corrupted(offset),
                ),
            },
    {
        self.link.get_link(offset)
    }

    /// The heads of all buckets, in the order of the buckets.
    pub fn bucket_iterator(&self) -> (r: Vec<Offset>)
        ensures
            r@ == self.mem.heads@,
    {
        self.mem.iter()
    }
}

impl BCDBAPI for BCDB {
    open spec fn valid(&self) -> bool {
        self.wf()
    }

    open spec fn ready(&self) -> bool {
        self.is_open()
    }

    open spec fn consistent(&self) -> bool {
        self.inv()
    }

    open spec fn records(&self) -> Seq<Stored> {
        self@
    }

    /// Empties content log and link log and starts the recovery log with a
    /// snapshot of three zeros. Table and index are left as they are: this is
    /// for a store that was just created, whose table has no pages.
    fn init(&mut self) -> (r: Result<(), BCDBError>)
        ensures
            r is Ok,
            final(self).data@ == Seq::<u8>::empty(),
            final(self).link@ == Seq::<u8>::empty(),
            final(self).data.limit == old(self).data.limit,
            final(self).link.limit == old(self).link.limit,
            final(self).log@ == snapshot_bytes(0, 0, 0),
            final(self).table == old(self).table,
            final(self).mem == old(self).mem,
            final(self).state == old(self).state,
            final(self)@ == Seq::<Stored>::empty(),
            old(self).table@.len() == 0 && old(self).mem.clean() && old(self).mem.mirrors(
                old(self).table@,
            ) ==> final(self).inv() && final(self).committed(),
    {
        self.data.init();
        self.link.init();
        self.log.init(0, 0, 0);
        proof {
            if old(self).table@.len() == 0 && old(self).mem.clean() && old(self).mem.mirrors(
                old(self).table@,
            ) {
                assert forall|b: int| 0 <= b < BUCKETS implies #[trigger] bucket_chain(
                    self.mem,
                    self.link@,
                    b,
                ) == Some(indexed(records(self.data@), b)) by {
                    assert(bucket_at(self.table@, b) == self.mem.heads@[b]);
                    assert(Seq::<(u32, Offset)>::empty() + self.mem.pending@[b]@ =~= Seq::<
                        (u32, Offset),
                    >::empty());
                }
            }
        }
        Ok(())
    }

    /// The commit. What is pending in the index is flushed: link records are
    /// appended, and each table page is logged before it is patched. Then the
    /// recovery log is started anew with the lengths that the three regions
    /// have now. What a lookup finds is the same before and after.
    ///
    /// Fails with `IO` when the link log cannot take the pending entries; the
    /// store then stays in the middle of the commit and is to be reopened.
    fn batch(&mut self) -> (r: Result<(), BCDBError>)
        ensures
            r is Ok <==> old(self).link@.len() + flush_size(
                old(self).mem.pending@,
                BUCKETS as int,
            ) <= old(self).link.limit,
            final(self).data == old(self).data,
            final(self).link.limit == old(self).link.limit,
            r is Err ==> {
                &&& r == Err::<(), BCDBError>(BCDBError::IO)
                &&& final(self).state == BatchState::Committing
                &&& final(self).mem.pending@ == old(self).mem.pending@
                &&& exists|k: int| #[trigger]
                    stops_at(
                        old(self).link@.len() as int,
                        old(self).link.limit as int,
                        old(self).mem.pending@,
                        k,
                    ) && flushed_upto(
                        old(self).mem.heads@,
                        old(self).mem.pending@,
                        old(self).link@,
                        old(self).log@,
                        old(self).table@,
                        final(self).mem.heads@,
                        final(self).link@,
                        final(self).log@,
                        final(self).table@,
                        k,
                    )
            },
            r is Ok ==> {
                &&& final(self).committed()
                &&& final(self).mem.heads@ == heads_upto(
                    old(self).mem.heads@,
                    old(self).link@.len() as int,
                    old(self).mem.pending@,
                    BUCKETS as int,
                )
                &&& final(self).link@ == old(self).link@ + flushed_link(
                    old(self).mem.heads@,
                    old(self).mem.pending@,
                    BUCKETS as int,
                )
                &&& final(self).table@ == flushed_table(
                    old(self).table@,
                    old(self).mem.heads@,
                    old(self).link@.len() as int,
                    old(self).mem.pending@,
                    BUCKETS as int,
                )
                &&& old(self).mem.clean() ==> final(self).mem.heads@ == old(self).mem.heads@
                    && final(self).table@ == old(self).table@ && final(self).link@ == old(
                    self,
                ).link@
                &&& old(self).mem.mirrors(old(self).table@) ==> final(self).mem.mirrors(
                    final(self).table@,
                )
                &&& forall|b: int|
                    0 <= b < BUCKETS && chain(old(self).link@, old(self).mem.heads@[b]) is Some
                        ==> #[trigger] chain(final(self).link@, final(self).mem.heads@[b]) == Some(
                        chain(old(self).link@, old(self).mem.heads@[b])->0 + old(
                            self,
                        ).mem.pending@[b]@,
                    )
                &&& old(self).inv() ==> final(self).inv() && final(self)@ == old(self)@
            },
    {
        self.state = BatchState::Committing;
        let data_len = self.data.len();
        match self.mem.flush(&mut self.log, &mut self.table, &mut self.link) {
            Err(e) => {
                return Err(e);
            },
            Ok(()) => {},
        }
        let link_len = self.link.len();
        let table_len = self.table.len();
        self.log.init(data_len, table_len, link_len);
        self.state = BatchState::Open;
        proof {
            if old(self).inv() {
                lemma_flush_keeps_inv(*old(self), *self);
            }
        }
        Ok(())
    }

    /// After this, no put and no batch is taken.
    fn shutdown(&mut self)
        ensures
            final(self).state == BatchState::Closed,
            final(self).mem == old(self).mem,
            final(self).table == old(self).table,
            final(self).link == old(self).link,
            final(self).data == old(self).data,
            final(self).log == old(self).log,
    {
        self.state = BatchState::Closed;
    }

    /// The record is appended to the content log at once; the index takes an
    /// entry for each key in memory, which the next batch writes out.
    ///
    /// Fails with `DoesNotFit` for more than 255 keys, a key of more than 255
    /// bytes or a payload of 2^23 bytes or more, and with `IO` when the
    /// content log cannot take the record. The store is then unchanged.
    fn put(&mut self, keys: Vec<Vec<u8>>, data: &[u8]) -> (r: Result<Offset, BCDBError>)
        ensures
            r == Err::<Offset, BCDBError>(BCDBError::IO) <==> fits(keys.deep_view(), data@)
                && old(self).data@.len() + content_bytes(
                ContentView::Data(keys.deep_view(), data@),
            ).len() > old(self).data.limit,
            r is Err ==> r->Err_0 == BCDBError::DoesNotFit || r->Err_0 == BCDBError::IO,
            fits(keys.deep_view(), data@) && old(self).data@.len() + 0x100_0000 <= old(
                self,
            ).data.limit ==> r is Ok,
            final(self).data.limit == old(self).data.limit,
            final(self).table == old(self).table,
            final(self).link == old(self).link,
            final(self).log == old(self).log,
            final(self).mem.heads@ == old(self).mem.heads@,
            r is Err ==> final(self).data@ == old(self).data@ && final(self).mem == old(self).mem,
            r matches Ok(o) ==> {
                &&& o.value == old(self).data@.len() + 1
                &&& final(self).data@ == old(self).data@ + content_bytes(
                    ContentView::Data(keys.deep_view(), data@),
                )
                &&& resolve(final(self).data@, o) == Some(
                    ContentView::Data(keys.deep_view(), data@),
                )
                &&& forall|b: int|
                    0 <= b < BUCKETS ==> (#[trigger] final(self).mem.pending@[b])@ == old(
                        self,
                    ).mem.pending@[b]@ + placed(keys.deep_view(), o, b)
                &&& old(self).inv() ==> final(self).inv() && final(self)@ == old(self)@.push(
                    Stored { offset: o, content: ContentView::Data(keys.deep_view(), data@) },
                )
            },
    {
        proof {
            lemma_record_size(KIND_DATA, keys.deep_view(), data@);
        }
        let offset = match self.data.append_data(&keys, data) {
            Err(e) => {
                return Err(e);
            },
            Ok(offset) => offset,
        };
        self.mem.put(&keys, offset);
        proof {
            if old(self).inv() {
                lemma_put_keeps_inv(*old(self), *self, keys.deep_view(), data@, offset);
                lemma_records_from_resolve(self.data@, 0);
            }
        }
        Ok(offset)
    }

    /// All of what the lookup of the key yields; where the parts of the
    /// store agree, the history of the key.
    fn get(&self, key: &[u8]) -> (r: Result<Vec<(Offset, Vec<Vec<u8>>, Vec<u8>)>, BCDBError>)
        ensures
            all_of(self.mem.lookup(self.link@, self.data@, key@), r),
            self.inv() ==> r is Ok && r->Ok_0.deep_view() == history(self@, key@),
    {
        proof {
            if self.inv() {
                lemma_lookup_is_history(self.mem, self.link@, self.data@, key@);
            }
        }
        self.mem.get(key, &self.data, &self.link)
    }

    /// The first of what the lookup of the key yields; where the parts of
    /// the store agree, the first of the key's history.
    fn get_unique(&self, key: &[u8]) -> (r: Result<
        Option<(Offset, Vec<Vec<u8>>, Vec<u8>)>,
        BCDBError,
    >)
        ensures
            first_of(self.mem.lookup(self.link@, self.data@, key@), r),
            self.inv() ==> r is Ok && match r->Ok_0 {
                Some(first) => history(self@, key@).len() > 0 && first.deep_view() == history(
                    self@,
                    key@,
                )[0],
                None => history(self@, key@).len() == 0,
            },
    {
        proof {
            if self.inv() {
                lemma_lookup_is_history(self.mem, self.link@, self.data@, key@);
            }
        }
        self.mem.get_unique(key, &self.data, &self.link)
    }

    /// The record is appended to the content log; the index is not touched.
    ///
    /// Fails with `DoesNotFit` for a payload of 2^23 bytes or more, and with
    /// `IO` when the content log cannot take the record. The store is then
    /// unchanged.
    fn put_content(&mut self, data: &[u8]) -> (r: Result<Offset, BCDBError>)
        ensures
            r == Err::<Offset, BCDBError>(BCDBError::IO) <==> data@.len() < PAYLOAD_LIMIT && old(
                self,
            ).data@.len() + content_bytes(ContentView::Extension(data@)).len() > old(
                self,
            ).data.limit,
            r is Err ==> r->Err_0 == BCDBError::DoesNotFit || r->Err_0 == BCDBError::IO,
            data@.len() < PAYLOAD_LIMIT && old(self).data@.len() + 0x100_0000 <= old(
                self,
            ).data.limit ==> r is Ok,
            final(self).data.limit == old(self).data.limit,
            final(self).table == old(self).table,
            final(self).link == old(self).link,
            final(self).log == old(self).log,
            final(self).mem == old(self).mem,
            r is Err ==> final(self).data@ == old(self).data@,
            r matches Ok(o) ==> {
                &&& o.value == old(self).data@.len() + 1
                &&& final(self).data@ == old(self).data@ + content_bytes(
                    ContentView::Extension(data@),
                )
                &&& resolve(final(self).data@, o) == Some(ContentView::Extension(data@))
                &&& old(self).inv() ==> final(self).inv() && final(self)@ == old(self)@.push(
                    Stored { offset: o, content: ContentView::Extension(data@) },
                )
            },
    {
        proof {
            lemma_record_size(KIND_EXTENSION, Seq::<Seq<u8>>::empty(), data@);
        }
        let r = self.data.append_data_extension(data);
        proof {
            if old(self).inv() && r is Ok {
                lemma_put_content_keeps_inv(*old(self), *self, data@, r->Ok_0);
                lemma_records_from_resolve(self.data@, 0);
            }
        }
        r
    }

    /// `Corrupted` with the address if the bytes there are not a record.
    fn get_content(&self, offset: Offset) -> (r: Result<(Vec<Vec<u8>>, Vec<u8>), BCDBError>)
        ensures
            match resolve(self.data@, offset) {
                Some(ContentView::Data(keys, payload)) => r matches Ok(found)
                    && found.0.deep_view() == keys && found.1@ == payload,
                Some(ContentView::Extension(payload)) => r matches Ok(found)
                    && found.0.deep_view() == Seq::<Seq<u8>>::empty() && found.1@ == payload,
                None => r == Err::<(Vec<Vec<u8>>, Vec<u8>), BCDBError>(
                    BCDBError::Corrupted(offset),
                ),
            },
    {
        proof {
            if self.inv() {
                lemma_records_from_resolve(self.data@, 0);
            }
        }
        match self.data.get_content(offset) {
            Err(e) => Err(e),
            Ok(Content::Extension(data)) => {
                let keys: Vec<Vec<u8>> = Vec::new();
                proof {
                    lemma_keys_empty(keys);
                }
                Ok((keys, data))
            },
            Ok(Content::Data(keys, data)) => Ok((keys, data)),
        }
    }
}

} // verus!
