//! The recovery log: a snapshot of the three other regions' lengths, followed
//! by the images of the table pages that the running batch is about to patch.
//!
//! Every page of the log is `LOG_PAGE_SIZE` bytes:
//!
//! ```text
//! snapshot: tag 1 (1) | 0 (1) | content log length (6) | table length (6)
//!                     | link log length (6) | zeros
//! patch:    tag 2 (1) | 0 (1) | number of the table page (6) | zeros (8)
//!                     | image of the table page
//! ```

use vstd::prelude::*;
use crate::bytes::{copy_range, push_all};
use crate::error::BCDBError;
use crate::offset::{be48, be48_bytes, lemma_be48_of_bytes, Offset, MAX_OFFSET};
use crate::table::{patched, PAGES, PAGE_SIZE};

verus! {

/// Bytes of one page of the log.
pub const LOG_PAGE_SIZE: usize = 4096;

/// Bytes of a patch page before the image.
pub const LOG_HEADER: usize = 16;

/// Tag of the page that records the lengths.
pub const TAG_SNAPSHOT: u8 = 1;

/// Tag of a page that holds the image of a table page.
pub const TAG_PATCH: u8 = 2;

/// One page of the recovery log.
#[derive(Clone, Debug, PartialEq, Eq)]
pub enum LogPage {
    /// The lengths of content log, table and link log when the last batch
    /// was completed.
    LengthSnapshot { data_len: u64, table_len: u64, link_len: u64 },
    /// The image of a table page that the batch is about to write.
    PagePatch { page: u64, image: Vec<u8> },
}

/// One page of the recovery log, as mathematical values.
pub enum LogPageView {
    LengthSnapshot { data_len: int, table_len: int, link_len: int },
    PagePatch { page: int, image: Seq<u8> },
}

impl View for LogPage {
    type V = LogPageView;

    open spec fn view(&self) -> LogPageView {
        match self {
            LogPage::LengthSnapshot { data_len, table_len, link_len } => LogPageView::LengthSnapshot {
                data_len: *data_len as int,
                table_len: *table_len as int,
                link_len: *link_len as int,
            },
            LogPage::PagePatch { page, image } => LogPageView::PagePatch {
                page: *page as int,
                image: image@,
            },
        }
    }
}

/// `n` zero bytes.
pub open spec fn zeros(n: nat) -> Seq<u8> {
    Seq::new(n, |i: int| 0u8)
}

/// The page that records these lengths.
pub open spec fn snapshot_bytes(data_len: int, table_len: int, link_len: int) -> Seq<u8> {
    seq![TAG_SNAPSHOT, 0u8] + be48_bytes(data_len) + be48_bytes(table_len) + be48_bytes(link_len)
        + zeros(4076)
}

/// The page that holds `image` for table page `page`.
pub open spec fn patch_bytes(page: int, image: Seq<u8>) -> Seq<u8> {
    seq![TAG_PATCH, 0u8] + be48_bytes(page) + zeros(8) + image
}

/// What page `index` of the log holds; `None` for an unknown tag.
pub open spec fn log_page(bytes: Seq<u8>, index: int) -> Option<LogPageView> {
    let p = index * LOG_PAGE_SIZE;
    if bytes[p] == TAG_SNAPSHOT {
        Some(
            LogPageView::LengthSnapshot {
                data_len: be48(bytes.subrange(p + 2, p + 8)),
                table_len: be48(bytes.subrange(p + 8, p + 14)),
                link_len: be48(bytes.subrange(p + 14, p + 20)),
            },
        )
    } else if bytes[p] == TAG_PATCH {
        Some(
            LogPageView::PagePatch {
                page: be48(bytes.subrange(p + 2, p + 8)),
                image: bytes.subrange(p + LOG_HEADER, p + LOG_PAGE_SIZE),
            },
        )
    } else {
        None
    }
}

/// The first `n` pages of the log in order, or the number of the first page
/// with an unknown tag.
pub open spec fn log_pages_upto(bytes: Seq<u8>, n: nat) -> Result<Seq<LogPageView>, int>
    decreases n,
{
    if n == 0 {
        Ok(Seq::empty())
    } else {
        match log_pages_upto(bytes, (n - 1) as nat) {
            Err(e) => Err(e),
            Ok(pages) => match log_page(bytes, n - 1) {
                None => Err(n - 1),
                Some(page) => Ok(pages.push(page)),
            },
        }
    }
}

/// All pages of the log in order, or the number of the first page with an
/// unknown tag.
pub open spec fn log_pages(bytes: Seq<u8>) -> Result<Seq<LogPageView>, int> {
    log_pages_upto(bytes, bytes.len() / (LOG_PAGE_SIZE as nat))
}

/// Once a page has an unknown tag, every longer prefix of the log fails at
/// that page.
pub proof fn lemma_log_pages_err(bytes: Seq<u8>, n: nat, m: nat)
    requires
        log_pages_upto(bytes, n) is Err,
        n <= m,
    ensures
        log_pages_upto(bytes, m) == log_pages_upto(bytes, n),
    decreases m,
{
    if n < m {
        lemma_log_pages_err(bytes, n, (m - 1) as nat);
    }
}

/// The table after the patch pages among pages `from` up to `n` of the
/// recovery log were written to it in order. A snapshot among them is
/// `Corrupted` with the number of its page; a patch that the table cannot
/// take is `Corrupted` with the number of the table page.
pub open spec fn replay(table: Seq<u8>, pages: Seq<LogPageView>, from: int, n: int) -> Result<
    Seq<u8>,
    BCDBError,
>
    decreases n - from,
{
    if n <= from {
        Ok(table)
    } else {
        match replay(table, pages, from, n - 1) {
            Err(e) => Err(e),
            Ok(t) => match pages[n - 1] {
                LogPageView::LengthSnapshot { .. } => Err(
                    BCDBError::Corrupted(Offset { value: (n - 1) as u64 }),
                ),
                LogPageView::PagePatch { page, image } => {
                    if page < PAGES && image.len() == PAGE_SIZE {
                        Ok(patched(t, page, image))
                    } else {
                        Err(BCDBError::Corrupted(Offset { value: page as u64 }))
                    }
                },
            },
        }
    }
}

/// Once replay has failed, it fails the same way however many pages follow.
pub proof fn lemma_replay_err(table: Seq<u8>, pages: Seq<LogPageView>, from: int, n: int, m: int)
    requires
        replay(table, pages, from, n) is Err,
        n <= m,
    ensures
        replay(table, pages, from, m) == replay(table, pages, from, n),
    decreases m - n,
{
    if n < m {
        lemma_replay_err(table, pages, from, n, m - 1);
    }
}

/// Replay reads the pages from `from` up to `n` and no others.
pub proof fn lemma_replay_same(
    table: Seq<u8>,
    pages: Seq<LogPageView>,
    others: Seq<LogPageView>,
    from: int,
    n: int,
)
    requires
        forall|i: int| from <= i < n ==> pages[i] == others[i],
    ensures
        replay(table, pages, from, n) == replay(table, others, from, n),
    decreases n - from,
{
    if n > from {
        lemma_replay_same(table, pages, others, from, n - 1);
    }
}

/// The pages of a log are as many as its bytes make.
pub proof fn lemma_log_pages_len(bytes: Seq<u8>, n: nat)
    ensures
        log_pages_upto(bytes, n) matches Ok(pages) ==> pages.len() == n,
    decreases n,
{
    if n > 0 {
        lemma_log_pages_len(bytes, (n - 1) as nat);
    }
}

/// Appending bytes does not change the pages that were there before.
pub proof fn lemma_log_pages_stable(bytes: Seq<u8>, more: Seq<u8>, n: nat)
    requires
        n * LOG_PAGE_SIZE <= bytes.len(),
    ensures
        log_pages_upto(bytes + more, n) == log_pages_upto(bytes, n),
    decreases n,
{
    if n > 0 {
        lemma_log_pages_stable(bytes, more, (n - 1) as nat);
        let p = (n - 1) * LOG_PAGE_SIZE;
        let all = bytes + more;
        assert(all[p] == bytes[p]);
        assert(all.subrange(p + 2, p + 8) =~= bytes.subrange(p + 2, p + 8));
        assert(all.subrange(p + 8, p + 14) =~= bytes.subrange(p + 8, p + 14));
        assert(all.subrange(p + 14, p + 20) =~= bytes.subrange(p + 14, p + 20));
        assert(all.subrange(p + LOG_HEADER, p + LOG_PAGE_SIZE) =~= bytes.subrange(
            p + LOG_HEADER,
            p + LOG_PAGE_SIZE,
        ));
    }
}

/// A patch page that was appended to a log of whole pages is its last page.
pub proof fn lemma_log_pages_appended(bytes: Seq<u8>, page: int, image: Seq<u8>)
    requires
        bytes.len() % (LOG_PAGE_SIZE as nat) == 0,
        0 <= page <= MAX_OFFSET,
        image.len() == PAGE_SIZE,
        log_pages(bytes) is Ok,
    ensures
        (bytes + patch_bytes(page, image)).len() == bytes.len() + LOG_PAGE_SIZE,
        log_pages(bytes + patch_bytes(page, image)) == Ok::<Seq<LogPageView>, int>(
            log_pages(bytes)->Ok_0.push(LogPageView::PagePatch { page, image }),
        ),
        log_pages(bytes)->Ok_0.len() == bytes.len() / (LOG_PAGE_SIZE as nat),
{
    let n = bytes.len() / (LOG_PAGE_SIZE as nat);
    let rec = patch_bytes(page, image);
    let all = bytes + rec;
    let p = n * LOG_PAGE_SIZE;
    assert(p == bytes.len());
    assert(rec.len() == LOG_PAGE_SIZE);
    assert(all.len() / (LOG_PAGE_SIZE as nat) == n + 1);
    lemma_log_pages_stable(bytes, rec, n);
    lemma_log_pages_len(bytes, n);
    lemma_be48_of_bytes(page);
    assert(all[p as int] == TAG_PATCH);
    assert(all.subrange(p + 2, p + 8) =~= be48_bytes(page));
    assert(all.subrange(p + LOG_HEADER, p + LOG_PAGE_SIZE) =~= image);
}

/// A log that was just started holds its snapshot and nothing else.
pub proof fn lemma_snapshot_pages(data_len: int, table_len: int, link_len: int)
    requires
        0 <= data_len <= MAX_OFFSET,
        0 <= table_len <= MAX_OFFSET,
        0 <= link_len <= MAX_OFFSET,
    ensures
        snapshot_bytes(data_len, table_len, link_len).len() == LOG_PAGE_SIZE,
        log_pages(snapshot_bytes(data_len, table_len, link_len)) == Ok::<Seq<LogPageView>, int>(
            seq![LogPageView::LengthSnapshot { data_len, table_len, link_len }],
        ),
{
    let bytes = snapshot_bytes(data_len, table_len, link_len);
    lemma_be48_of_bytes(data_len);
    lemma_be48_of_bytes(table_len);
    lemma_be48_of_bytes(link_len);
    assert(bytes.len() == 4096);
    assert(bytes[0] == TAG_SNAPSHOT);
    assert(bytes.subrange(2, 8) =~= be48_bytes(data_len));
    assert(bytes.subrange(8, 14) =~= be48_bytes(table_len));
    assert(bytes.subrange(14, 20) =~= be48_bytes(link_len));
    assert(log_pages_upto(bytes, 0) == Ok::<Seq<LogPageView>, int>(Seq::empty()));
    assert(log_pages_upto(bytes, 1) == Ok::<Seq<LogPageView>, int>(
        Seq::<LogPageView>::empty().push(
            LogPageView::LengthSnapshot { data_len, table_len, link_len },
        ),
    ));
    assert(Seq::<LogPageView>::empty().push(
        LogPageView::LengthSnapshot { data_len, table_len, link_len },
    ) =~= seq![LogPageView::LengthSnapshot { data_len, table_len, link_len }]);
}

/// The recovery log.
pub struct LogFile {
    pub bytes: Vec<u8>,
}

impl View for LogFile {
    type V = Seq<u8>;

    open spec fn view(&self) -> Seq<u8> {
        self.bytes@
    }
}

impl LogFile {
    /// The log holds whole pages.
    pub open spec fn wf(&self) -> bool {
        self.bytes@.len() % (LOG_PAGE_SIZE as nat) == 0
    }

    /// A log without pages.
    pub fn new() -> (r: LogFile)
        ensures
            r@ == Seq::<u8>::empty(),
            r.wf(),
    {
        LogFile { bytes: Vec::new() }
    }

    /// A log over bytes that were stored earlier; `Corrupted` with the number
    /// of the page that is cut short if they are not whole pages.
    pub fn from_bytes(bytes: Vec<u8>) -> (r: Result<LogFile, BCDBError>)
        ensures
            bytes@.len() % (LOG_PAGE_SIZE as nat) == 0 ==> r is Ok && r->Ok_0@ == bytes@
                && r->Ok_0.wf(),
            bytes@.len() % (LOG_PAGE_SIZE as nat) != 0 ==> r == Err::<LogFile, BCDBError>(
                BCDBError::Corrupted(Offset { value: (bytes@.len() / (LOG_PAGE_SIZE as nat)) as u64 }),
            ),
    {
        if bytes.len() % LOG_PAGE_SIZE == 0 {
            Ok(LogFile { bytes })
        } else {
            Err(BCDBError::Corrupted(Offset { value: (bytes.len() / LOG_PAGE_SIZE) as u64 }))
        }
    }

    /// Starts the log anew with a snapshot of these lengths; earlier pages
    /// are dropped.
    pub fn init(&mut self, data_len: u64, table_len: u64, link_len: u64)
        requires
            data_len <= MAX_OFFSET,
            table_len <= MAX_OFFSET,
            link_len <= MAX_OFFSET,
        ensures
            final(self)@ == snapshot_bytes(data_len as int, table_len as int, link_len as int),
            final(self).wf(),
    {
        self.bytes.clear();
        self.bytes.push(TAG_SNAPSHOT);
        self.bytes.push(0u8);
        Offset { value: data_len }.write(&mut self.bytes);
        Offset { value: table_len }.write(&mut self.bytes);
        Offset { value: link_len }.write(&mut self.bytes);
        let ghost head = self.bytes@;
        let mut i: usize = 0;
        while i < 4076
            invariant
                i <= 4076,
                head.len() == 20,
                self.bytes@ == head + zeros(i as nat),
            decreases 4076 - i,
        {
            self.bytes.push(0u8);
            assert(self.bytes@ =~= head + zeros((i + 1) as nat));
            i += 1;
        }
        assert(self.bytes@ =~= snapshot_bytes(data_len as int, table_len as int, link_len as int));
    }

    /// Appends the image that table page `page` is about to get.
    pub fn append_page(&mut self, page: u64, image: &[u8])
        requires
            old(self).wf(),
            page <= MAX_OFFSET,
            image@.len() == PAGE_SIZE,
        ensures
            final(self)@ == old(self)@ + patch_bytes(page as int, image@),
            final(self).wf(),
    {
        let ghost before = self.bytes@;
        self.bytes.push(TAG_PATCH);
        self.bytes.push(0u8);
        Offset { value: page }.write(&mut self.bytes);
        let ghost head = self.bytes@;
        let mut i: usize = 0;
        while i < 8
            invariant
                i <= 8,
                self.bytes@ == head + zeros(i as nat),
            decreases 8 - i,
        {
            self.bytes.push(0u8);
            assert(self.bytes@ =~= head + zeros((i + 1) as nat));
            i += 1;
        }
        push_all(&mut self.bytes, image);
        assert(self.bytes@ =~= before + patch_bytes(page as int, image@));
    }

    /// Number of whole pages in the log.
    pub fn page_count(&self) -> (r: usize)
        ensures
            r == self@.len() / (LOG_PAGE_SIZE as nat),
    {
        self.bytes.len() / LOG_PAGE_SIZE
    }

    /// Decodes page `index`.
    fn read_page(&self, index: usize) -> (r: Option<LogPage>)
        requires
            index < self@.len() / (LOG_PAGE_SIZE as nat),
        ensures
            match log_page(self@, index as int) {
                Some(page) => r is Some && r->0@ == page,
                None => r is None,
            },
    {
        let bytes = self.bytes.as_slice();
        let p = index * LOG_PAGE_SIZE;
        let tag = bytes[p];
        if tag == TAG_SNAPSHOT {
            Some(
                LogPage::LengthSnapshot {
                    data_len: Offset::read(bytes, p + 2).value,
                    table_len: Offset::read(bytes, p + 8).value,
                    link_len: Offset::read(bytes, p + 14).value,
                },
            )
        } else if tag == TAG_PATCH {
            Some(
                LogPage::PagePatch {
                    page: Offset::read(bytes, p + 2).value,
                    image: copy_range(bytes, p + LOG_HEADER, p + LOG_PAGE_SIZE),
                },
            )
        } else {
            None
        }
    }

    /// Every page of the log in order; `Corrupted` with the number of the
    /// first page whose tag is unknown.
    pub fn page_iter(&self) -> (r: Result<Vec<LogPage>, BCDBError>)
        ensures
            match log_pages(self@) {
                Ok(pages) => r is Ok && pages_view(r->Ok_0@) == pages,
                Err(index) => r == Err::<Vec<LogPage>, BCDBError>(
                    BCDBError::Corrupted(Offset { value: index as u64 }),
                ),
            },
    {
        let n = self.page_count();
        let mut out: Vec<LogPage> = Vec::new();
        let mut i: usize = 0;
        assert(pages_view(out@) =~= Seq::<LogPageView>::empty());
        while i < n
            invariant
                i <= n,
                n == self@.len() / (LOG_PAGE_SIZE as nat),
                log_pages_upto(self@, i as nat) == Ok::<Seq<LogPageView>, int>(pages_view(out@)),
            decreases n - i,
        {
            match self.read_page(i) {
                None => {
                    proof {
                        lemma_log_pages_err(self@, (i + 1) as nat, n as nat);
                    }
                    return Err(BCDBError::Corrupted(Offset { value: i as u64 }));
                },
                Some(page) => {
                    let ghost before = out@;
                    out.push(page);
                    assert(pages_view(out@) =~= pages_view(before).push(page@));
                },
            }
            i += 1;
        }
        Ok(out)
    }
}

/// Pages as mathematical values.
pub open spec fn pages_view(pages: Seq<LogPage>) -> Seq<LogPageView> {
    pages.map_values(|p: LogPage| p@)
}

} // verus!
