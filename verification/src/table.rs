//! The index table: an array of bucket heads, patched one page at a time.
//!
//! Bucket `i` is the six bytes from byte `6 * i` on; a page is `PAGE_SIZE`
//! bytes, that is `BUCKETS_PER_PAGE` buckets. The table holds whole pages
//! only, and a bucket beyond its end reads as absent.

use vstd::prelude::*;
use crate::error::BCDBError;
use crate::offset::{be48, be48_bytes, lemma_be48_of_bytes, Offset};

verus! {

/// Bytes of one bucket.
pub const BUCKET_SIZE: usize = 6;

/// Buckets in one page.
pub const BUCKETS_PER_PAGE: usize = 680;

/// Bytes of one page.
pub const PAGE_SIZE: usize = 4080;

/// Pages of a full table.
pub const PAGES: usize = 32;

/// Buckets of a full table.
pub const BUCKETS: usize = 21760;

/// Bytes of a full table.
pub const TABLE_SIZE: usize = 130560;

/// Whether every one of `heads` fits in 48 bits.
pub open spec fn heads_valid(heads: Seq<Offset>) -> bool {
    forall|i: int| 0 <= i < heads.len() ==> (#[trigger] heads[i]).valid()
}

/// The head that the table holds for bucket `i`.
pub open spec fn bucket_at(table: Seq<u8>, i: int) -> Offset {
    if 0 <= i && BUCKET_SIZE * i + BUCKET_SIZE <= table.len() {
        Offset { value: be48(table.subrange(BUCKET_SIZE * i, BUCKET_SIZE * i + BUCKET_SIZE)) as u64 }
    } else {
        Offset { value: 0 }
    }
}

/// Byte `j` of the table after page `page` was overwritten with `image`.
pub open spec fn patched_byte(table: Seq<u8>, page: int, image: Seq<u8>, j: int) -> u8 {
    if page * PAGE_SIZE <= j < (page + 1) * PAGE_SIZE {
        image[j - page * PAGE_SIZE]
    } else if j < table.len() {
        table[j]
    } else {
        0u8
    }
}

/// The table after page `page` was overwritten with `image`; a table that
/// ended before the page is filled up with zeros.
pub open spec fn patched(table: Seq<u8>, page: int, image: Seq<u8>) -> Seq<u8> {
    Seq::new(
        if table.len() >= (page + 1) * PAGE_SIZE {
            table.len()
        } else {
            ((page + 1) * PAGE_SIZE) as nat
        },
        |j: int| patched_byte(table, page, image, j),
    )
}

/// Byte `j` of the image of page `page` of a table with these heads.
pub open spec fn image_byte(heads: Seq<Offset>, page: int, j: int) -> u8 {
    be48_bytes(heads[page * BUCKETS_PER_PAGE + j / 6].value as int)[j % 6]
}

/// The image of page `page` of a table with these heads.
pub open spec fn page_image(heads: Seq<Offset>, page: int) -> Seq<u8> {
    Seq::new(PAGE_SIZE as nat, |j: int| image_byte(heads, page, j))
}

/// The page that holds bucket `b`.
pub open spec fn page_of(b: int) -> int {
    b / (BUCKETS_PER_PAGE as int)
}

/// After a page was overwritten with the image of `heads`, the table holds
/// those heads for the buckets of the page and what it held before for all
/// others.
pub proof fn lemma_patched_buckets(table: Seq<u8>, page: int, heads: Seq<Offset>)
    requires
        table.len() % (PAGE_SIZE as nat) == 0,
        0 <= page < PAGES,
        heads.len() == BUCKETS,
        heads_valid(heads),
    ensures
        patched(table, page, page_image(heads, page)).len() % (PAGE_SIZE as nat) == 0,
        patched(table, page, page_image(heads, page)).len() >= table.len(),
        table.len() <= TABLE_SIZE ==> patched(table, page, page_image(heads, page)).len()
            <= TABLE_SIZE,
        forall|b: int|
            0 <= b < BUCKETS ==> #[trigger] bucket_at(
                patched(table, page, page_image(heads, page)),
                b,
            ) == if page_of(b) == page {
                heads[b]
            } else {
                bucket_at(table, b)
            },
{
    let image = page_image(heads, page);
    let new = patched(table, page, image);
    assert forall|b: int| 0 <= b < BUCKETS implies #[trigger] bucket_at(new, b) == if page_of(b)
        == page {
        heads[b]
    } else {
        bucket_at(table, b)
    } by {
        let q = 6 * b;
        if page_of(b) == page {
            let r = b - page * 680;
            assert(0 <= r < 680);
            assert forall|t: int| 0 <= t < 6 implies new[q + t] == be48_bytes(
                heads[b].value as int,
            )[t] by {
                let j = 6 * r + t;
                assert(q + t - page * 4080 == j);
                assert(j / 6 == r);
                assert(j % 6 == t);
                assert(new[q + t] == image[j]);
                assert(image[j] == image_byte(heads, page, j));
            }
            assert(new.subrange(q, q + 6) =~= be48_bytes(heads[b].value as int));
            assert(heads[b].valid());
            lemma_be48_of_bytes(heads[b].value as int);
        } else if q + 6 <= table.len() {
            assert(new.subrange(q, q + 6) =~= table.subrange(q, q + 6));
        } else if q + 6 <= new.len() {
            assert(q >= table.len());
            assert(new.subrange(q, q + 6) =~= seq![0u8, 0u8, 0u8, 0u8, 0u8, 0u8]);
        }
    }
}

/// The index table.
pub struct TableFile {
    pub bytes: Vec<u8>,
}

impl View for TableFile {
    type V = Seq<u8>;

    open spec fn view(&self) -> Seq<u8> {
        self.bytes@
    }
}

impl TableFile {
    /// The table holds whole pages, and no more than a full table has.
    pub open spec fn wf(&self) -> bool {
        &&& self.bytes@.len() % (PAGE_SIZE as nat) == 0
        &&& self.bytes@.len() <= TABLE_SIZE
    }

    /// A table without pages.
    pub fn new() -> (r: TableFile)
        ensures
            r@ == Seq::<u8>::empty(),
            r.wf(),
    {
        TableFile { bytes: Vec::new() }
    }

    /// A table over bytes that were stored earlier; `Corrupted` with their
    /// number if they are not whole pages or more than a full table.
    pub fn from_bytes(bytes: Vec<u8>) -> (r: Result<TableFile, BCDBError>)
        ensures
            (bytes@.len() % (PAGE_SIZE as nat) == 0 && bytes@.len() <= TABLE_SIZE) ==> r is Ok
                && r->Ok_0@ == bytes@ && r->Ok_0.wf(),
            !(bytes@.len() % (PAGE_SIZE as nat) == 0 && bytes@.len() <= TABLE_SIZE) ==> r
                == Err::<TableFile, BCDBError>(
                BCDBError::Corrupted(Offset { value: bytes@.len() as u64 }),
            ),
    {
        if bytes.len() % PAGE_SIZE == 0 && bytes.len() <= TABLE_SIZE {
            Ok(TableFile { bytes })
        } else {
            Err(BCDBError::Corrupted(Offset { value: bytes.len() as u64 }))
        }
    }

    /// Number of bytes in the table.
    pub fn len(&self) -> (r: u64)
        requires
            self.wf(),
        ensures
            r == self@.len(),
    {
        self.bytes.len() as u64
    }

    /// Drops the pages beyond `len`; a table that is not longer stays as it
    /// is. `Corrupted` with `len` if that is not a number of whole pages; the
    /// table is then unchanged.
    pub fn truncate(&mut self, len: u64) -> (r: Result<(), BCDBError>)
        requires
            old(self).wf(),
        ensures
            final(self).wf(),
            len % (PAGE_SIZE as u64) != 0 ==> r == Err::<(), BCDBError>(
                BCDBError::Corrupted(Offset { value: len }),
            ) && final(self)@ == old(self)@,
            len % (PAGE_SIZE as u64) == 0 ==> r is Ok && final(self)@ == truncated(
                old(self)@,
                len as int,
            ),
    {
        if len % (PAGE_SIZE as u64) != 0 {
            return Err(BCDBError::Corrupted(Offset { value: len }));
        }
        if len <= self.bytes.len() as u64 {
            self.bytes.truncate(len as usize);
        }
        Ok(())
    }

    /// The head of bucket `i`; absent for a bucket beyond the table's end.
    pub fn read_bucket(&self, i: usize) -> (r: Offset)
        ensures
            r == bucket_at(self@, i as int),
            r.valid(),
    {
        if i < self.bytes.len() / BUCKET_SIZE {
            Offset::read(self.bytes.as_slice(), BUCKET_SIZE * i)
        } else {
            Offset { value: 0 }
        }
    }

    /// Overwrites page `page` with `image`, after filling a table that ends
    /// before the page with zeros. `Corrupted` with the page's number if the
    /// table has no such page or `image` is not one page long; the table is
    /// then unchanged.
    pub fn patch_page(&mut self, page: u64, image: &[u8]) -> (r: Result<(), BCDBError>)
        requires
            old(self).wf(),
        ensures
            final(self).wf(),
            (page < PAGES && image@.len() == PAGE_SIZE) ==> r is Ok && final(self)@ == patched(
                old(self)@,
                page as int,
                image@,
            ),
            !(page < PAGES && image@.len() == PAGE_SIZE) ==> r == Err::<(), BCDBError>(
                BCDBError::Corrupted(Offset { value: page }),
            ) && final(self)@ == old(self)@,
    {
        if page >= PAGES as u64 || image.len() != PAGE_SIZE {
            return Err(BCDBError::Corrupted(Offset { value: page }));
        }
        let start = page as usize * PAGE_SIZE;
        let end = start + PAGE_SIZE;
        while self.bytes.len() < end
            invariant
                old(self)@.len() <= self.bytes@.len(),
                self.bytes@.len() <= end || self.bytes@ == old(self)@,
                end <= TABLE_SIZE,
                old(self)@.len() <= TABLE_SIZE,
                forall|j: int| 0 <= j < old(self)@.len() ==> self.bytes@[j] == old(self)@[j],
                forall|j: int| old(self)@.len() <= j < self.bytes@.len() ==> self.bytes@[j] == 0u8,
            decreases end - self.bytes@.len(),
        {
            self.bytes.push(0u8);
        }
        let ghost filled = self.bytes@;
        assert(forall|k: int| 0 <= k < old(self)@.len() ==> filled[k] == old(self)@[k]);
        assert(forall|k: int| old(self)@.len() <= k < filled.len() ==> filled[k] == 0u8);
        let mut j: usize = 0;
        while j < PAGE_SIZE
            invariant
                j <= PAGE_SIZE,
                start == page * PAGE_SIZE,
                end == start + PAGE_SIZE,
                image@.len() == PAGE_SIZE,
                self.bytes@.len() == filled.len(),
                end <= filled.len(),
                forall|k: int| 0 <= k < start + j && !(start <= k) ==> self.bytes@[k] == filled[k],
                forall|k: int| start + j <= k < filled.len() ==> self.bytes@[k] == filled[k],
                forall|k: int| start <= k < start + j ==> self.bytes@[k] == image@[k - start],
            decreases PAGE_SIZE - j,
        {
            self.bytes.set(start + j, image[j]);
            j += 1;
        }
        proof {
            let target = patched(old(self)@, page as int, image@);
            assert(self.bytes@.len() == target.len());
            assert forall|k: int| 0 <= k < target.len() implies self.bytes@[k] == target[k] by {
                if start <= k < end {
                    assert(self.bytes@[k] == image@[k - start]);
                } else {
                    assert(self.bytes@[k] == filled[k]);
                }
            }
            assert(self.bytes@ =~= target);
        }
        Ok(())
    }
}

/// The table after the pages beyond `len` were dropped.
pub open spec fn truncated(table: Seq<u8>, len: int) -> Seq<u8> {
    if 0 <= len <= table.len() {
        table.subrange(0, len)
    } else {
        table
    }
}

/// The image of page `page` of a table with these heads.
pub fn make_page(heads: &Vec<Offset>, page: usize) -> (r: Vec<u8>)
    requires
        heads@.len() == BUCKETS,
        heads_valid(heads@),
        page < PAGES,
    ensures
        r@ == page_image(heads@, page as int),
{
    let mut r: Vec<u8> = Vec::new();
    let first = page * BUCKETS_PER_PAGE;
    let mut k: usize = 0;
    while k < BUCKETS_PER_PAGE
        invariant
            k <= BUCKETS_PER_PAGE,
            page < PAGES,
            first == page * BUCKETS_PER_PAGE,
            heads@.len() == BUCKETS,
            heads_valid(heads@),
            r@.len() == 6 * k,
            forall|j: int| 0 <= j < 6 * k ==> r@[j] == image_byte(heads@, page as int, j),
        decreases BUCKETS_PER_PAGE - k,
    {
        let head = heads[first + k];
        let ghost before = r@;
        head.write(&mut r);
        proof {
            assert forall|j: int| 0 <= j < 6 * (k + 1) implies r@[j] == image_byte(
                heads@,
                page as int,
                j,
            ) by {
                if j >= 6 * k {
                    let t = j - 6 * k;
                    assert(j / 6 == k);
                    assert(j % 6 == t);
                    assert(r@[j] == be48_bytes(head.value as int)[t]);
                } else {
                    assert(r@[j] == before[j]);
                }
            }
        }
        k += 1;
    }
    assert(r@ =~= page_image(heads@, page as int));
    r
}

} // verus!
