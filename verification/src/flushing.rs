//! What a flush of the write-back index does to the regions, bucket by
//! bucket, and why the chains, the table and the recovery log stay in step.

use vstd::prelude::*;
use crate::error::BCDBError;
use crate::linkfile::{
    chain, entries_valid, lemma_chain_head_in_log, lemma_chain_stable, lemma_link_at_written,
    link_bytes, link_resolve, ENTRY_SIZE, LINK_HEADER,
};
use crate::logfile::{
    lemma_log_pages_appended, lemma_replay_same, log_pages, patch_bytes, replay, LogPageView,
    LOG_PAGE_SIZE,
};
use crate::offset::{Offset, MAX_OFFSET};
use crate::table::{
    bucket_at, heads_valid, lemma_patched_buckets, page_image, page_of, patched, BUCKETS, PAGES,
    PAGE_SIZE,
};

verus! {

/// Bytes that flushing the first `n` buckets adds to the link log: one record
/// for each bucket that has pending entries.
pub open spec fn flush_size(pending: Seq<Vec<(u32, Offset)>>, n: int) -> int
    decreases n,
{
    if n <= 0 {
        0
    } else if pending[n - 1]@.len() > 0 {
        flush_size(pending, n - 1) + LINK_HEADER + ENTRY_SIZE * pending[n - 1]@.len()
    } else {
        flush_size(pending, n - 1)
    }
}

/// Whether bucket `b` has pending entries.
pub open spec fn dirty(pending: Seq<Vec<(u32, Offset)>>, b: int) -> bool {
    pending[b]@.len() > 0
}

/// The address of the link record that a flush writes for bucket `b`, into a
/// link log that held `link_len` bytes before.
pub open spec fn new_head(link_len: int, pending: Seq<Vec<(u32, Offset)>>, b: int) -> Offset {
    Offset { value: (link_len + flush_size(pending, b) + 1) as u64 }
}

/// The heads once the buckets before `n` are flushed: a bucket that had
/// pending entries has its new link record for head.
pub open spec fn heads_upto(
    heads: Seq<Offset>,
    link_len: int,
    pending: Seq<Vec<(u32, Offset)>>,
    n: int,
) -> Seq<Offset> {
    Seq::new(
        heads.len(),
        |c: int|
            if c < n && dirty(pending, c) {
                new_head(link_len, pending, c)
            } else {
                heads[c]
            },
    )
}

/// What flushing the buckets before `n` appends to the link log: for each
/// bucket that has pending entries, in the order of the buckets, a record
/// with those entries that points back to the bucket's head.
pub open spec fn flushed_link(
    heads: Seq<Offset>,
    pending: Seq<Vec<(u32, Offset)>>,
    n: int,
) -> Seq<u8>
    decreases n,
{
    if n <= 0 {
        Seq::empty()
    } else if dirty(pending, n - 1) {
        flushed_link(heads, pending, n - 1) + link_bytes(pending[n - 1]@, heads[n - 1])
    } else {
        flushed_link(heads, pending, n - 1)
    }
}

/// What flushing the buckets before `n` appends to the recovery log: for
/// each bucket that has pending entries, the image of the bucket's table
/// page with the heads as they are once that bucket is flushed.
pub open spec fn flushed_log(
    heads: Seq<Offset>,
    link_len: int,
    pending: Seq<Vec<(u32, Offset)>>,
    n: int,
) -> Seq<u8>
    decreases n,
{
    if n <= 0 {
        Seq::empty()
    } else if dirty(pending, n - 1) {
        flushed_log(heads, link_len, pending, n - 1) + patch_bytes(
            page_of(n - 1),
            page_image(heads_upto(heads, link_len, pending, n), page_of(n - 1)),
        )
    } else {
        flushed_log(heads, link_len, pending, n - 1)
    }
}

/// The table once the buckets before `n` are flushed: for each bucket that
/// has pending entries, the bucket's page was overwritten with the image
/// that went to the recovery log.
pub open spec fn flushed_table(
    table: Seq<u8>,
    heads: Seq<Offset>,
    link_len: int,
    pending: Seq<Vec<(u32, Offset)>>,
    n: int,
) -> Seq<u8>
    decreases n,
{
    if n <= 0 {
        table
    } else if dirty(pending, n - 1) {
        patched(
            flushed_table(table, heads, link_len, pending, n - 1),
            page_of(n - 1),
            page_image(heads_upto(heads, link_len, pending, n), page_of(n - 1)),
        )
    } else {
        flushed_table(table, heads, link_len, pending, n - 1)
    }
}

/// Whether a flush into a link log of `link_len` bytes that can hold `limit`
/// stops at bucket `k`: the records of the buckets before it fit, and its
/// own does not.
pub open spec fn stops_at(
    link_len: int,
    limit: int,
    pending: Seq<Vec<(u32, Offset)>>,
    k: int,
) -> bool {
    &&& 0 <= k < BUCKETS
    &&& dirty(pending, k)
    &&& link_len + flush_size(pending, k) <= limit
    &&& link_len + flush_size(pending, k + 1) > limit
}

/// Whether every patch that a log got since it was `log_before` is the last
/// word on its table page: replaying the pages that the log has more than
/// before onto `table_before` gives `table`.
pub open spec fn redone(
    log_before: Seq<u8>,
    log: Seq<u8>,
    table_before: Seq<u8>,
    table: Seq<u8>,
) -> bool {
    &&& log_pages(log_before) is Ok
    &&& log_pages(log) is Ok
    &&& log.len() % (LOG_PAGE_SIZE as nat) == 0
    &&& log_pages(log_before)->Ok_0.len() <= log_pages(log)->Ok_0.len()
    &&& forall|i: int|
        0 <= i < log_pages(log_before)->Ok_0.len() ==> log_pages(log)->Ok_0[i] == log_pages(
            log_before,
        )->Ok_0[i]
    &&& replay(
        table_before,
        log_pages(log)->Ok_0,
        log_pages(log_before)->Ok_0.len() as int,
        log_pages(log)->Ok_0.len() as int,
    ) == Ok::<Seq<u8>, BCDBError>(table)
}

/// One more patch, logged and then written to the table, keeps the table
/// what replaying the log gives.
pub proof fn lemma_redone_step(
    log_before: Seq<u8>,
    log: Seq<u8>,
    table_before: Seq<u8>,
    table: Seq<u8>,
    page: int,
    image: Seq<u8>,
)
    requires
        redone(log_before, log, table_before, table),
        0 <= page < PAGES,
        image.len() == PAGE_SIZE,
    ensures
        redone(log_before, log + patch_bytes(page, image), table_before, patched(table, page, image)),
{
    lemma_log_pages_appended(log, page, image);
    let ps = log_pages(log_before)->Ok_0;
    let qs = log_pages(log)->Ok_0;
    let rs = log_pages(log + patch_bytes(page, image))->Ok_0;
    assert(rs == qs.push(LogPageView::PagePatch { page, image }));
    lemma_replay_same(table_before, qs, rs, ps.len() as int, qs.len() as int);
}

/// Flushing more buckets never adds fewer bytes.
pub proof fn lemma_flush_size_grows(pending: Seq<Vec<(u32, Offset)>>, n: int, m: int)
    requires
        0 <= n <= m,
    ensures
        0 <= flush_size(pending, n) <= flush_size(pending, m),
    decreases m,
{
    if m > 0 {
        if n < m {
            lemma_flush_size_grows(pending, n, m - 1);
        } else {
            lemma_flush_size_grows(pending, n - 1, m - 1);
        }
    }
}

/// Where nothing is pending, a flush adds nothing to the link log.
pub proof fn lemma_flush_size_clean(pending: Seq<Vec<(u32, Offset)>>, n: int)
    requires
        0 <= n <= pending.len(),
        forall|b: int| 0 <= b < pending.len() ==> (#[trigger] pending[b])@.len() == 0,
    ensures
        flush_size(pending, n) == 0,
    decreases n,
{
    if n > 0 {
        lemma_flush_size_clean(pending, n - 1);
    }
}

/// Whether the chains of the buckets before `upto` hold what they held in
/// `old_link` from `old_heads`, followed by what was pending.
pub open spec fn chains_kept(
    old_heads: Seq<Offset>,
    pending: Seq<Vec<(u32, Offset)>>,
    old_link: Seq<u8>,
    heads: Seq<Offset>,
    link: Seq<u8>,
    upto: int,
) -> bool {
    forall|c: int|
        0 <= c < upto && chain(old_link, old_heads[c]) is Some ==> #[trigger] chain(link, heads[c])
            == Some(chain(old_link, old_heads[c])->0 + pending[c]@)
}

/// Whether `heads` are the heads that `table` holds.
pub open spec fn heads_mirror(heads: Seq<Offset>, table: Seq<u8>) -> bool {
    forall|b: int| 0 <= b < BUCKETS ==> #[trigger] bucket_at(table, b) == heads[b]
}

/// A bucket without pending entries keeps its chain while the link log grows.
pub proof fn lemma_flush_skip(
    old_heads: Seq<Offset>,
    pending: Seq<Vec<(u32, Offset)>>,
    old_link: Seq<u8>,
    heads: Seq<Offset>,
    more: Seq<u8>,
    b: int,
)
    requires
        0 <= b < heads.len(),
        chains_kept(old_heads, pending, old_link, heads, old_link + more, b),
        heads[b] == old_heads[b],
        pending[b]@.len() == 0,
    ensures
        chains_kept(old_heads, pending, old_link, heads, old_link + more, b + 1),
{
    if chain(old_link, old_heads[b]) is Some {
        let known = chain(old_link, old_heads[b])->0;
        lemma_chain_stable(old_link, more, old_heads[b]);
        assert(known + pending[b]@ =~= known);
    }
}

/// A bucket whose pending entries were appended as a record gets the chain
/// it had, followed by those entries; the buckets before it keep theirs.
pub proof fn lemma_flush_take(
    old_heads: Seq<Offset>,
    pending: Seq<Vec<(u32, Offset)>>,
    old_link: Seq<u8>,
    heads: Seq<Offset>,
    more: Seq<u8>,
    rec: Seq<u8>,
    head: Offset,
    b: int,
)
    requires
        0 <= b < heads.len(),
        chains_kept(old_heads, pending, old_link, heads, old_link + more, b),
        heads[b] == old_heads[b],
        head.value == (old_link + more).len() + 1,
        link_resolve(old_link + more + rec, head) == Some((pending[b]@, heads[b])),
    ensures
        chains_kept(
            old_heads,
            pending,
            old_link,
            heads.update(b, head),
            old_link + (more + rec),
            b + 1,
        ),
{
    let link_before = old_link + more;
    let link = old_link + (more + rec);
    assert(link =~= link_before + rec);
    let new_heads = heads.update(b, head);
    assert forall|c: int|
        0 <= c < b + 1 && chain(old_link, old_heads[c]) is Some implies #[trigger] chain(
        link,
        new_heads[c],
    ) == Some(chain(old_link, old_heads[c])->0 + pending[c]@) by {
        if c < b {
            assert(new_heads[c] == heads[c]);
            assert(chain(link_before, heads[c]) is Some);
            lemma_chain_stable(link_before, rec, heads[c]);
        } else {
            lemma_chain_head_in_log(old_link, heads[b]);
            lemma_chain_stable(old_link, more + rec, heads[b]);
        }
    }
}

/// Patching the page of a bucket with the image of the new heads keeps the
/// table and the heads in step.
pub proof fn lemma_flush_mirror(
    heads: Seq<Offset>,
    table: Seq<u8>,
    head: Offset,
    b: int,
)
    requires
        0 <= b < BUCKETS,
        heads.len() == BUCKETS,
        heads_valid(heads),
        head.valid(),
        table.len() % (PAGE_SIZE as nat) == 0,
        heads_mirror(heads, table),
    ensures
        heads_mirror(
            heads.update(b, head),
            patched(
                table,
                page_of(b),
                page_image(heads.update(b, head), page_of(b)),
            ),
        ),
{
    let new_heads = heads.update(b, head);
    let page = page_of(b);
    lemma_patched_buckets(table, page, new_heads);
    let new_table = patched(table, page, page_image(new_heads, page));
    assert forall|c: int| 0 <= c < BUCKETS implies #[trigger] bucket_at(new_table, c)
        == new_heads[c] by {
        if page_of(c) != page {
            assert(bucket_at(table, c) == heads[c]);
        }
    }
}

/// Whether heads and regions are what flushing the buckets before `n` of
/// the index `mem` makes of the regions given first.
pub open spec fn flushed_upto(
    heads0: Seq<Offset>,
    pending: Seq<Vec<(u32, Offset)>>,
    link0: Seq<u8>,
    log0: Seq<u8>,
    table0: Seq<u8>,
    heads: Seq<Offset>,
    link: Seq<u8>,
    log: Seq<u8>,
    table: Seq<u8>,
    n: int,
) -> bool {
    &&& heads == heads_upto(heads0, link0.len() as int, pending, n)
    &&& link == link0 + flushed_link(heads0, pending, n)
    &&& log == log0 + flushed_log(heads0, link0.len() as int, pending, n)
    &&& table == flushed_table(table0, heads0, link0.len() as int, pending, n)
}

/// A bucket without pending entries changes nothing.
pub proof fn lemma_flushed_skip(
    heads0: Seq<Offset>,
    pending: Seq<Vec<(u32, Offset)>>,
    link0: Seq<u8>,
    log0: Seq<u8>,
    table0: Seq<u8>,
    heads: Seq<Offset>,
    link: Seq<u8>,
    log: Seq<u8>,
    table: Seq<u8>,
    n: int,
)
    requires
        0 <= n < BUCKETS,
        flushed_upto(heads0, pending, link0, log0, table0, heads, link, log, table, n),
        !dirty(pending, n),
        flushed_link(heads0, pending, n).len() == flush_size(pending, n),
    ensures
        flushed_upto(heads0, pending, link0, log0, table0, heads, link, log, table, n + 1),
        flushed_link(heads0, pending, n + 1).len() == flush_size(pending, n + 1),
{
    assert(heads_upto(heads0, link0.len() as int, pending, n + 1) =~= heads_upto(
        heads0,
        link0.len() as int,
        pending,
        n,
    ));
}

/// A bucket with pending entries: its record goes to the link log, its new
/// head to the heads, and the image of its page to recovery log and table.
pub proof fn lemma_flushed_take(
    heads0: Seq<Offset>,
    pending: Seq<Vec<(u32, Offset)>>,
    link0: Seq<u8>,
    log0: Seq<u8>,
    table0: Seq<u8>,
    heads: Seq<Offset>,
    link: Seq<u8>,
    log: Seq<u8>,
    table: Seq<u8>,
    n: int,
)
    requires
        0 <= n < BUCKETS,
        heads0.len() == BUCKETS,
        heads_valid(heads0),
        entries_valid(pending[n]@),
        flushed_upto(heads0, pending, link0, log0, table0, heads, link, log, table, n),
        dirty(pending, n),
        flushed_link(heads0, pending, n).len() == flush_size(pending, n),
        link0.len() + flush_size(pending, n) + LINK_HEADER + ENTRY_SIZE
            * pending[n]@.len() <= MAX_OFFSET,
    ensures
        ({
            let head = new_head(link0.len() as int, pending, n);
            let new_heads = heads.update(n, head);
            let image = page_image(new_heads, page_of(n));
            flushed_upto(
                heads0,
                pending,
                link0,
                log0,
                table0,
                new_heads,
                link + link_bytes(pending[n]@, heads0[n]),
                log + patch_bytes(page_of(n), image),
                patched(table, page_of(n), image),
                n + 1,
            )
        }),
        flushed_link(heads0, pending, n + 1).len() == flush_size(pending, n + 1),
        new_head(link0.len() as int, pending, n).value == link0.len() + flush_size(
            pending,
            n,
        ) + 1,
{
    let head = new_head(link0.len() as int, pending, n);
    let new_heads = heads.update(n, head);
    lemma_flush_size_grows(pending, 0, n);
    assert(new_heads =~= heads_upto(heads0, link0.len() as int, pending, n + 1));
    let rec = link_bytes(pending[n]@, heads0[n]);
    assert(heads_valid(heads0));
    assert(heads0[n].valid());
    lemma_link_at_written(link, pending[n]@, heads0[n]);
    assert(link + rec =~= link0 + flushed_link(heads0, pending, n + 1));
    let image = page_image(new_heads, page_of(n));
    assert(log + patch_bytes(page_of(n), image) =~= log0 + flushed_log(
        heads0,
        link0.len() as int,
        pending,
        n + 1,
    ));
}

} // verus!
