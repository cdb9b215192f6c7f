//! The link log: an append-only region of hash-chain records.
//!
//! A record is laid out as
//!
//! ```text
//! number of entries (6) | address of the previous record (6)
//!                       | for each entry: tag (4), address of a content record (6)
//! ```
//!
//! with every number big endian, and is addressed by the position of its first
//! byte plus one. The entries of a record are in the order in which they were
//! put, oldest first.

use vstd::prelude::*;
use crate::bytes::{be32, be32_bytes, lemma_be32_of_bytes, lemma_be32_range, read_u32, write_u32};
use crate::error::BCDBError;
use crate::offset::{be48, be48_bytes, lemma_be48_of_bytes, lemma_bytes_of_be48, Offset, MAX_OFFSET};

verus! {

/// Bytes of a record before its entries.
pub const LINK_HEADER: usize = 12;

/// Bytes of one entry.
pub const ENTRY_SIZE: usize = 10;

/// Whether every address among `entries` fits in 48 bits.
pub open spec fn entries_valid(entries: Seq<(u32, Offset)>) -> bool {
    forall|i: int| 0 <= i < entries.len() ==> (#[trigger] entries[i]).1.valid()
}

/// One entry as it is written.
pub open spec fn entry_bytes(e: (u32, Offset)) -> Seq<u8> {
    be32_bytes(e.0 as int) + be48_bytes(e.1.value as int)
}

/// Entries as they are written, one after the other.
pub open spec fn entries_bytes(entries: Seq<(u32, Offset)>) -> Seq<u8>
    decreases entries.len(),
{
    if entries.len() == 0 {
        Seq::empty()
    } else {
        entries_bytes(entries.drop_last()) + entry_bytes(entries.last())
    }
}

/// A whole record as it is written.
pub open spec fn link_bytes(entries: Seq<(u32, Offset)>, previous: Offset) -> Seq<u8> {
    be48_bytes(entries.len() as int) + be48_bytes(previous.value as int) + entries_bytes(entries)
}

/// The entry written in the ten bytes from `pos` on.
pub open spec fn entry_at(bytes: Seq<u8>, pos: int) -> (u32, Offset) {
    (
        be32(bytes.subrange(pos, pos + 4)) as u32,
        Offset { value: be48(bytes.subrange(pos + 4, pos + 10)) as u64 },
    )
}

/// The `i`-th of the entries written one after the other from `start` on.
pub open spec fn nth_entry(bytes: Seq<u8>, start: int, i: int) -> (u32, Offset) {
    entry_at(bytes, start + ENTRY_SIZE * i)
}

/// Number of entries that the record at byte `pos` declares.
pub open spec fn link_count(bytes: Seq<u8>, pos: int) -> int {
    be48(bytes.subrange(pos, pos + 6))
}

/// The record that starts at byte `pos`: its entries and the address of the
/// record before it; `None` if the bytes end before the record does.
pub open spec fn link_at(bytes: Seq<u8>, pos: int) -> Option<(Seq<(u32, Offset)>, Offset)> {
    if pos < 0 || pos + LINK_HEADER > bytes.len() {
        None
    } else if pos + LINK_HEADER + ENTRY_SIZE * link_count(bytes, pos) > bytes.len() {
        None
    } else {
        Some(
            (
                Seq::new(
                    link_count(bytes, pos) as nat,
                    |i: int| nth_entry(bytes, pos + LINK_HEADER, i),
                ),
                Offset { value: be48(bytes.subrange(pos + 6, pos + 12)) as u64 },
            ),
        )
    }
}

/// The record at an address.
pub open spec fn link_resolve(bytes: Seq<u8>, offset: Offset) -> Option<
    (Seq<(u32, Offset)>, Offset),
> {
    link_at(bytes, offset.value - 1)
}

/// Position after the record that starts at byte `pos`.
pub open spec fn link_end(bytes: Seq<u8>, pos: int) -> int {
    pos + LINK_HEADER + ENTRY_SIZE * link_count(bytes, pos)
}

/// All records from byte `pos` to the end in the order they were written,
/// each with its address, or the position at which the bytes stop being
/// records.
pub open spec fn links_from(bytes: Seq<u8>, pos: int) -> Result<
    Seq<(Offset, Seq<(u32, Offset)>, Offset)>,
    int,
>
    decreases bytes.len() - pos,
{
    if pos < 0 || pos >= bytes.len() {
        Ok(Seq::empty())
    } else {
        match link_at(bytes, pos) {
            None => Err(pos),
            Some((entries, previous)) => {
                if link_end(bytes, pos) <= pos {
                    Err(pos)
                } else {
                    match links_from(bytes, link_end(bytes, pos)) {
                        Err(e) => Err(e),
                        Ok(rest) => Ok(
                            seq![(Offset { value: (pos + 1) as u64 }, entries, previous)] + rest,
                        ),
                    }
                }
            },
        }
    }
}

/// The entries reachable from `head` through the addresses of previous
/// records, oldest first; `None` if a record on the way does not decode or
/// does not point backwards.
pub open spec fn chain(bytes: Seq<u8>, head: Offset) -> Option<Seq<(u32, Offset)>>
    decreases head.value,
{
    if head.value == 0 {
        Some(Seq::empty())
    } else {
        match link_resolve(bytes, head) {
            None => None,
            Some((entries, previous)) => {
                if previous.value >= head.value {
                    None
                } else {
                    match chain(bytes, previous) {
                        None => None,
                        Some(older) => Some(older + entries),
                    }
                }
            },
        }
    }
}

/// Written entries take ten bytes each, and each can be read where it lies.
pub proof fn lemma_entries_bytes(entries: Seq<(u32, Offset)>)
    requires
        entries_valid(entries),
    ensures
        entries_bytes(entries).len() == ENTRY_SIZE * entries.len(),
        forall|i: int|
            0 <= i < entries.len() ==> #[trigger] nth_entry(entries_bytes(entries), 0, i)
                == entries[i],
    decreases entries.len(),
{
    if entries.len() > 0 {
        let front = entries.drop_last();
        let last = entries.last();
        lemma_entries_bytes(front);
        let all = entries_bytes(entries);
        let fb = entries_bytes(front);
        assert(entries[entries.len() - 1].1.valid());
        lemma_be32_of_bytes(last.0 as int);
        lemma_be48_of_bytes(last.1.value as int);
        assert forall|i: int| 0 <= i < entries.len() implies #[trigger] nth_entry(all, 0, i)
            == entries[i] by {
            let q = ENTRY_SIZE * i;
            if i < front.len() {
                assert(all.subrange(q, q + 4) =~= fb.subrange(q, q + 4));
                assert(all.subrange(q + 4, q + 10) =~= fb.subrange(q + 4, q + 10));
                assert(nth_entry(fb, 0, i) == front[i]);
            } else {
                assert(all.subrange(q, q + 4) =~= be32_bytes(last.0 as int));
                assert(all.subrange(q + 4, q + 10) =~= be48_bytes(last.1.value as int));
            }
        }
    }
}

/// Appending bytes does not change a record that was there before.
pub proof fn lemma_link_at_stable(bytes: Seq<u8>, more: Seq<u8>, pos: int)
    requires
        link_at(bytes, pos) is Some,
    ensures
        link_at(bytes + more, pos) == link_at(bytes, pos),
{
    let all = bytes + more;
    assert(all.subrange(pos, pos + 6) =~= bytes.subrange(pos, pos + 6));
    assert(all.subrange(pos + 6, pos + 12) =~= bytes.subrange(pos + 6, pos + 12));
    let n = link_count(bytes, pos);
    lemma_bytes_of_be48(bytes.subrange(pos, pos + 6));
    assert forall|i: int| 0 <= i < n implies #[trigger] nth_entry(all, pos + LINK_HEADER, i)
        == nth_entry(bytes, pos + LINK_HEADER, i) by {
        let q = pos + LINK_HEADER + ENTRY_SIZE * i;
        assert(all.subrange(q, q + 4) =~= bytes.subrange(q, q + 4));
        assert(all.subrange(q + 4, q + 10) =~= bytes.subrange(q + 4, q + 10));
    }
    let (fresh, _) = link_at(all, pos)->0;
    let (known, _) = link_at(bytes, pos)->0;
    assert(fresh =~= known);
}

/// A record written at the end of a log is read back there.
pub proof fn lemma_link_at_written(bytes: Seq<u8>, entries: Seq<(u32, Offset)>, previous: Offset)
    requires
        entries_valid(entries),
        previous.valid(),
        entries.len() <= MAX_OFFSET,
    ensures
        link_bytes(entries, previous).len() == LINK_HEADER + ENTRY_SIZE * entries.len(),
        link_at(bytes + link_bytes(entries, previous), bytes.len() as int) == Some(
            (entries, previous),
        ),
{
    let rec = link_bytes(entries, previous);
    let all = bytes + rec;
    let pos = bytes.len() as int;
    let eb = entries_bytes(entries);
    lemma_entries_bytes(entries);
    lemma_be48_of_bytes(entries.len() as int);
    lemma_be48_of_bytes(previous.value as int);
    assert(all.subrange(pos, pos + 6) =~= be48_bytes(entries.len() as int));
    assert(all.subrange(pos + 6, pos + 12) =~= be48_bytes(previous.value as int));
    assert forall|i: int| 0 <= i < entries.len() implies #[trigger] nth_entry(
        all,
        pos + LINK_HEADER,
        i,
    ) == entries[i] by {
        let q = pos + LINK_HEADER + ENTRY_SIZE * i;
        assert(all.subrange(q, q + 4) =~= eb.subrange(ENTRY_SIZE * i, ENTRY_SIZE * i + 4));
        assert(all.subrange(q + 4, q + 10) =~= eb.subrange(
            ENTRY_SIZE * i + 4,
            ENTRY_SIZE * i + 10,
        ));
        assert(nth_entry(eb, 0, i) == entries[i]);
    }
    let (fresh, _) = link_at(all, pos)->0;
    assert(fresh =~= entries);
}

/// Appending bytes does not change a chain that could be walked before.
pub proof fn lemma_chain_stable(bytes: Seq<u8>, more: Seq<u8>, head: Offset)
    requires
        chain(bytes, head) is Some,
    ensures
        chain(bytes + more, head) == chain(bytes, head),
    decreases head.value,
{
    if head.value != 0 {
        lemma_link_at_stable(bytes, more, head.value - 1);
        let (entries, previous) = link_resolve(bytes, head)->0;
        lemma_chain_stable(bytes, more, previous);
    }
}

/// A chain that can be walked starts inside the log, and every address that
/// was decoded on the way fits in 48 bits.
pub proof fn lemma_chain_head_in_log(bytes: Seq<u8>, head: Offset)
    requires
        chain(bytes, head) is Some,
    ensures
        head.value <= bytes.len(),
{
}

/// The link log.
pub struct LinkFile {
    pub bytes: Vec<u8>,
    /// Most bytes the log can hold.
    pub limit: u64,
}

impl View for LinkFile {
    type V = Seq<u8>;

    open spec fn view(&self) -> Seq<u8> {
        self.bytes@
    }
}

impl LinkFile {
    /// The log is within its limit, and every address into it fits in 48
    /// bits.
    pub open spec fn wf(&self) -> bool {
        self.bytes@.len() <= self.limit <= MAX_OFFSET
    }

    /// An empty log that can grow as far as addresses reach.
    pub fn new() -> (r: LinkFile)
        ensures
            r@ == Seq::<u8>::empty(),
            r.limit == MAX_OFFSET,
            r.wf(),
    {
        LinkFile { bytes: Vec::new(), limit: MAX_OFFSET }
    }

    /// An empty log on storage of `limit` bytes, or as far as addresses
    /// reach if that is less.
    pub fn with_limit(limit: u64) -> (r: LinkFile)
        ensures
            r@ == Seq::<u8>::empty(),
            r.limit == if limit <= MAX_OFFSET {
                limit
            } else {
                MAX_OFFSET
            },
            r.wf(),
    {
        if limit <= MAX_OFFSET {
            LinkFile { bytes: Vec::new(), limit }
        } else {
            LinkFile { bytes: Vec::new(), limit: MAX_OFFSET }
        }
    }

    /// A log over bytes that were stored earlier; `IO` for more bytes than
    /// addresses reach.
    pub fn from_bytes(bytes: Vec<u8>) -> (r: Result<LinkFile, BCDBError>)
        ensures
            bytes@.len() <= MAX_OFFSET ==> r is Ok && r->Ok_0@ == bytes@ && r->Ok_0.limit
                == MAX_OFFSET && r->Ok_0.wf(),
            bytes@.len() > MAX_OFFSET ==> r == Err::<LinkFile, BCDBError>(BCDBError::IO),
    {
        if bytes.len() as u64 <= MAX_OFFSET {
            Ok(LinkFile { bytes, limit: MAX_OFFSET })
        } else {
            Err(BCDBError::IO)
        }
    }

    /// Empties the log.
    pub fn init(&mut self)
        requires
            old(self).wf(),
        ensures
            final(self)@ == Seq::<u8>::empty(),
            final(self).limit == old(self).limit,
            final(self).wf(),
    {
        self.bytes.clear();
    }

    /// Number of bytes in the log.
    pub fn len(&self) -> (r: u64)
        requires
            self.wf(),
        ensures
            r == self@.len(),
    {
        self.bytes.len() as u64
    }

    /// Drops the bytes beyond `len`; a log that is not longer stays as it is.
    pub fn truncate(&mut self, len: u64)
        requires
            old(self).wf(),
        ensures
            final(self).wf(),
            final(self).limit == old(self).limit,
            len <= old(self)@.len() ==> final(self)@ == old(self)@.subrange(0, len as int),
            len > old(self)@.len() ==> final(self)@ == old(self)@,
    {
        if len <= self.bytes.len() as u64 {
            self.bytes.truncate(len as usize);
        }
    }

    /// Appends a record with `entries`, oldest first, that continues the chain
    /// at `previous`, and returns its address. `IO` when the log would outgrow
    /// its limit; the log is then unchanged.
    pub fn append(&mut self, entries: &Vec<(u32, Offset)>, previous: Offset) -> (r: Result<
        Offset,
        BCDBError,
    >)
        requires
            old(self).wf(),
            entries_valid(entries@),
            previous.valid(),
        ensures
            final(self).wf(),
            final(self).limit == old(self).limit,
            old(self)@.len() + LINK_HEADER + ENTRY_SIZE * entries@.len() > old(self).limit ==> r
                == Err::<Offset, BCDBError>(BCDBError::IO) && final(self)@ == old(self)@,
            old(self)@.len() + LINK_HEADER + ENTRY_SIZE * entries@.len() <= old(self).limit ==> {
                &&& r == Ok::<Offset, BCDBError>(Offset { value: (old(self)@.len() + 1) as u64 })
                &&& final(self)@ == old(self)@ + link_bytes(entries@, previous)
                &&& final(self)@.len() == old(self)@.len() + LINK_HEADER + ENTRY_SIZE
                    * entries@.len()
                &&& link_resolve(final(self)@, r->Ok_0) == Some((entries@, previous))
            },
    {
        let room = self.limit - self.bytes.len() as u64;
        if room < LINK_HEADER as u64 || (room - LINK_HEADER as u64) / (ENTRY_SIZE as u64)
            < entries.len() as u64 {
            return Err(BCDBError::IO);
        }
        let mut rec: Vec<u8> = Vec::new();
        let count = Offset { value: entries.len() as u64 };
        count.write(&mut rec);
        previous.write(&mut rec);
        let ghost head = rec@;
        let mut i: usize = 0;
        while i < entries.len()
            invariant
                i <= entries@.len(),
                entries_valid(entries@),
                rec@ == head + entries_bytes(entries@.subrange(0, i as int)),
            decreases entries@.len() - i,
        {
            let e = entries[i];
            write_u32(e.0, &mut rec);
            e.1.write(&mut rec);
            proof {
                let upto = entries@.subrange(0, i + 1);
                assert(upto.drop_last() =~= entries@.subrange(0, i as int));
                assert(upto.last() == e);
                assert(rec@ =~= head + entries_bytes(upto));
            }
            i += 1;
        }
        proof {
            assert(entries@.subrange(0, i as int) =~= entries@);
            assert(rec@ =~= link_bytes(entries@, previous));
            lemma_link_at_written(self@, entries@, previous);
        }
        let offset = Offset { value: self.bytes.len() as u64 + 1 };
        self.bytes.append(&mut rec);
        Ok(offset)
    }

    /// Decodes the record that starts at byte `pos`.
    fn decode_at(&self, pos: usize) -> (r: Option<(Vec<(u32, Offset)>, Offset, usize)>)
        ensures
            r is Some <==> link_at(self@, pos as int) is Some,
            r matches Some((entries, previous, end)) ==> {
                &&& link_at(self@, pos as int) == Some((entries@, previous))
                &&& end == link_end(self@, pos as int)
                &&& pos < end <= self@.len()
                &&& entries_valid(entries@)
                &&& previous.valid()
            },
    {
        let bytes = self.bytes.as_slice();
        let len = bytes.len();
        if pos > len || len - pos < LINK_HEADER {
            return None;
        }
        let n = Offset::read(bytes, pos).value;
        let previous = Offset::read(bytes, pos + 6);
        if (((len - pos - LINK_HEADER) / ENTRY_SIZE) as u64) < n {
            return None;
        }
        let n = n as usize;
        let mut entries: Vec<(u32, Offset)> = Vec::new();
        let mut i: usize = 0;
        while i < n
            invariant
                i <= n,
                bytes@ == self@,
                len == bytes@.len(),
                pos + LINK_HEADER + ENTRY_SIZE * n <= len,
                entries@.len() == i,
                forall|j: int|
                    0 <= j < i ==> #[trigger] entries@[j] == nth_entry(
                        bytes@,
                        pos + LINK_HEADER,
                        j,
                    ),
                entries_valid(entries@),
            decreases n - i,
        {
            let q = pos + LINK_HEADER + ENTRY_SIZE * i;
            let tag = read_u32(bytes, q);
            let target = Offset::read(bytes, q + 4);
            proof {
                lemma_be32_range(bytes@.subrange(q as int, q + 4));
            }
            entries.push((tag, target));
            i += 1;
        }
        proof {
            let (decoded, _) = link_at(self@, pos as int)->0;
            assert(entries@ =~= decoded);
        }
        Some((entries, previous, pos + LINK_HEADER + ENTRY_SIZE * n))
    }

    /// The record at `offset`: its entries, oldest first, and the address of
    /// the record before it. `Corrupted` with that address if the bytes there
    /// are not a record.
    pub fn get_link(&self, offset: Offset) -> (r: Result<(Vec<(u32, Offset)>, Offset), BCDBError>)
        ensures
            match link_resolve(self@, offset) {
                Some((entries, previous)) => r is Ok && r->Ok_0.0@ == entries && r->Ok_0.1
                    == previous && entries_valid(entries) && previous.valid(),
                None => r == Err::<(Vec<(u32, Offset)>, Offset), BCDBError>(
                    BCDBError::Corrupted(offset),
                ),
            },
    {
        if offset.value == 0 || offset.value > self.bytes.len() as u64 {
            return Err(BCDBError::Corrupted(offset));
        }
        match self.decode_at((offset.value - 1) as usize) {
            Some((entries, previous, _)) => Ok((entries, previous)),
            None => Err(BCDBError::Corrupted(offset)),
        }
    }

    /// Every record of the log from its start, oldest first, each with its
    /// address. `Corrupted` with the first address at which the bytes are no
    /// record.
    pub fn iter(&self) -> (r: Result<Vec<(Offset, Vec<(u32, Offset)>, Offset)>, BCDBError>)
        requires
            self.wf(),
        ensures
            match links_from(self@, 0) {
                Ok(links) => r is Ok && link_listing(r->Ok_0@) == links,
                Err(pos) => r == Err::<Vec<(Offset, Vec<(u32, Offset)>, Offset)>, BCDBError>(
                    BCDBError::Corrupted(Offset { value: (pos + 1) as u64 }),
                ),
            },
    {
        let mut out: Vec<(Offset, Vec<(u32, Offset)>, Offset)> = Vec::new();
        let mut pos: usize = 0;
        while pos < self.bytes.len()
            invariant
                self.wf(),
                pos <= self@.len(),
                links_from(self@, 0) == match links_from(self@, pos as int) {
                    Ok(rest) => Ok::<Seq<(Offset, Seq<(u32, Offset)>, Offset)>, int>(
                        link_listing(out@) + rest,
                    ),
                    Err(e) => Err::<Seq<(Offset, Seq<(u32, Offset)>, Offset)>, int>(e),
                },
            decreases self@.len() - pos,
        {
            match self.decode_at(pos) {
                None => {
                    return Err(BCDBError::Corrupted(Offset { value: pos as u64 + 1 }));
                },
                Some((entries, previous, end)) => {
                    let item = (Offset { value: pos as u64 + 1 }, entries, previous);
                    let ghost before = out@;
                    out.push(item);
                    proof {
                        let shown = (item.0, item.1@, item.2);
                        assert(link_listing(out@) =~= link_listing(before).push(shown));
                        if let Ok(tail) = links_from(self@, end as int) {
                            assert(link_listing(before) + (seq![shown] + tail) =~= link_listing(
                                out@,
                            ) + tail);
                        }
                    }
                    pos = end;
                },
            }
        }
        proof {
            assert(link_listing(out@) + Seq::empty() =~= link_listing(out@));
        }
        Ok(out)
    }
}

/// Listed records with the entries of each as a sequence.
pub open spec fn link_listing(v: Seq<(Offset, Vec<(u32, Offset)>, Offset)>) -> Seq<
    (Offset, Seq<(u32, Offset)>, Offset),
> {
    v.map_values(|e: (Offset, Vec<(u32, Offset)>, Offset)| (e.0, e.1@, e.2))
}

} // verus!
