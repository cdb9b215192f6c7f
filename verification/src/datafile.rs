//! The content log: an append-only region of keyed and unkeyed payload records.
//!
//! A record is laid out as
//!
//! ```text
//! kind (1) | number of keys (1) | payload length (6, big endian)
//!          | for each key: length (1), bytes | payload
//! ```
//!
//! and is addressed by the position of its first byte plus one.

use vstd::prelude::*;
use crate::bytes::{copy_range, lemma_bytes_view, lemma_keys_empty, lemma_keys_push, push_all};
use crate::error::BCDBError;
use crate::offset::{be48, be48_bytes, lemma_be48_of_bytes, Offset, MAX_OFFSET};

verus! {

/// Kind byte of a record that carries keys.
pub const KIND_DATA: u8 = 1;

/// Kind byte of a record without keys.
pub const KIND_EXTENSION: u8 = 2;

/// Bytes of a record before its keys.
pub const RECORD_HEADER: usize = 8;

/// Most keys a record can carry.
pub const MAX_KEYS: usize = 255;

/// Most bytes a key can have.
pub const MAX_KEY_LEN: usize = 255;

/// A payload must be shorter than this: 2^23 bytes.
pub const PAYLOAD_LIMIT: usize = 0x80_0000;

/// What a record of the content log holds.
#[derive(Clone, Debug, PartialEq, Eq)]
pub enum Content {
    /// Keys and payload.
    Data(Vec<Vec<u8>>, Vec<u8>),
    /// Payload only.
    Extension(Vec<u8>),
}

/// What a record of the content log holds, as mathematical sequences.
pub enum ContentView {
    Data(Seq<Seq<u8>>, Seq<u8>),
    Extension(Seq<u8>),
}

impl View for Content {
    type V = ContentView;

    open spec fn view(&self) -> ContentView {
        match self {
            Content::Data(keys, payload) => ContentView::Data(keys.deep_view(), payload@),
            Content::Extension(payload) => ContentView::Extension(payload@),
        }
    }
}

/// A record together with its address.
pub struct Stored {
    pub offset: Offset,
    pub content: ContentView,
}

/// Whether keys and payload are within the limits of a record.
pub open spec fn fits(keys: Seq<Seq<u8>>, payload: Seq<u8>) -> bool {
    &&& keys.len() <= MAX_KEYS
    &&& forall|i: int| 0 <= i < keys.len() ==> (#[trigger] keys[i]).len() <= MAX_KEY_LEN
    &&& payload.len() < PAYLOAD_LIMIT
}

/// The keys of a record as they are written: each preceded by its length.
pub open spec fn keys_bytes(keys: Seq<Seq<u8>>) -> Seq<u8>
    decreases keys.len(),
{
    if keys.len() == 0 {
        Seq::empty()
    } else {
        keys_bytes(keys.drop_last()) + seq![keys.last().len() as u8] + keys.last()
    }
}

/// A whole record as it is written.
pub open spec fn record_bytes(kind: u8, keys: Seq<Seq<u8>>, payload: Seq<u8>) -> Seq<u8> {
    seq![kind, keys.len() as u8] + be48_bytes(payload.len() as int) + keys_bytes(keys) + payload
}

/// The bytes that store `c`.
pub open spec fn content_bytes(c: ContentView) -> Seq<u8> {
    match c {
        ContentView::Data(keys, payload) => record_bytes(KIND_DATA, keys, payload),
        ContentView::Extension(payload) => record_bytes(KIND_EXTENSION, Seq::empty(), payload),
    }
}

/// Reads `n` length-prefixed keys from `pos` on: the keys and the position
/// after them, or `None` if the bytes end first.
pub open spec fn parse_keys(bytes: Seq<u8>, pos: int, n: nat) -> Option<(Seq<Seq<u8>>, int)>
    decreases n,
{
    if n == 0 {
        Some((Seq::empty(), pos))
    } else {
        match parse_keys(bytes, pos, (n - 1) as nat) {
            None => None,
            Some((keys, p)) => {
                if 0 <= p < bytes.len() && p + 1 + bytes[p] as int <= bytes.len() {
                    Some(
                        (
                            keys.push(bytes.subrange(p + 1, p + 1 + bytes[p] as int)),
                            p + 1 + bytes[p] as int,
                        ),
                    )
                } else {
                    None
                }
            },
        }
    }
}

/// The record that starts at byte `pos` and the position after it, or `None`
/// if the bytes there are not a well-formed record.
pub open spec fn content_at(bytes: Seq<u8>, pos: int) -> Option<(ContentView, int)> {
    if pos < 0 || pos + RECORD_HEADER > bytes.len() {
        None
    } else {
        let kind = bytes[pos];
        let n = bytes[pos + 1] as nat;
        let plen = be48(bytes.subrange(pos + 2, pos + 8));
        match parse_keys(bytes, pos + 8, n) {
            None => None,
            Some((keys, p)) => {
                if p + plen > bytes.len() {
                    None
                } else if kind == KIND_DATA {
                    Some((ContentView::Data(keys, bytes.subrange(p, p + plen)), p + plen))
                } else if kind == KIND_EXTENSION && n == 0 {
                    Some((ContentView::Extension(bytes.subrange(p, p + plen)), p + plen))
                } else {
                    None
                }
            },
        }
    }
}

/// The record at an address, if the bytes there are one.
pub open spec fn resolve(bytes: Seq<u8>, offset: Offset) -> Option<ContentView> {
    match content_at(bytes, offset.value - 1) {
        None => None,
        Some((c, _)) => Some(c),
    }
}

/// All records from byte `pos` to the end in the order they were written, or
/// the position at which the bytes stop being records.
pub open spec fn records_from(bytes: Seq<u8>, pos: int) -> Result<Seq<Stored>, int>
    decreases bytes.len() - pos,
{
    if pos < 0 || pos >= bytes.len() {
        Ok(Seq::empty())
    } else {
        match content_at(bytes, pos) {
            None => Err(pos),
            Some((c, end)) => {
                if end <= pos {
                    Err(pos)
                } else {
                    match records_from(bytes, end) {
                        Err(e) => Err(e),
                        Ok(rest) => Ok(
                            seq![Stored { offset: Offset { value: (pos + 1) as u64 }, content: c }]
                                + rest,
                        ),
                    }
                }
            },
        }
    }
}

/// All records of a content log, oldest first; empty if the log does not
/// parse to its end.
pub open spec fn records(bytes: Seq<u8>) -> Seq<Stored> {
    match records_from(bytes, 0) {
        Ok(rs) => rs,
        Err(_) => Seq::empty(),
    }
}

/// The keys of a record take one byte more than their own bytes each.
pub proof fn lemma_keys_bytes_len(keys: Seq<Seq<u8>>)
    ensures
        keys_bytes(keys).len() >= keys.len(),
        keys.len() > 0 ==> keys_bytes(keys).len() == keys_bytes(keys.drop_last()).len() + 1
            + keys.last().len(),
    decreases keys.len(),
{
    if keys.len() > 0 {
        lemma_keys_bytes_len(keys.drop_last());
    }
}

/// A record takes eight bytes, one byte for each key, and the bytes of keys
/// and payload; with keys and payload that fit, fewer than 2^24.
pub proof fn lemma_record_size(kind: u8, keys: Seq<Seq<u8>>, payload: Seq<u8>)
    ensures
        record_bytes(kind, keys, payload).len() == RECORD_HEADER + keys_bytes(keys).len()
            + payload.len(),
        fits(keys, payload) ==> record_bytes(kind, keys, payload).len() < 0x100_0000,
{
    lemma_keys_size(keys);
}

/// Keys that fit take at most 256 bytes each.
pub proof fn lemma_keys_size(keys: Seq<Seq<u8>>)
    ensures
        (forall|i: int| 0 <= i < keys.len() ==> (#[trigger] keys[i]).len() <= MAX_KEY_LEN)
            ==> keys_bytes(keys).len() <= 256 * keys.len(),
    decreases keys.len(),
{
    if keys.len() > 0 {
        lemma_keys_size(keys.drop_last());
        if forall|i: int| 0 <= i < keys.len() ==> (#[trigger] keys[i]).len() <= MAX_KEY_LEN {
            assert forall|i: int| 0 <= i < keys.drop_last().len() implies (
            #[trigger] keys.drop_last()[i]).len() <= MAX_KEY_LEN by {
                assert(keys.drop_last()[i] == keys[i]);
            }
            assert(keys[keys.len() - 1].len() <= MAX_KEY_LEN);
        }
    }
}

/// Parsed keys end where they should, and each is at most 255 bytes long.
pub proof fn lemma_parse_keys_shape(bytes: Seq<u8>, pos: int, n: nat)
    requires
        0 <= pos,
    ensures
        parse_keys(bytes, pos, n) matches Some((keys, p)) ==> {
            &&& keys.len() == n
            &&& pos + n <= p <= bytes.len() || (n == 0 && p == pos)
            &&& p == pos + keys_bytes(keys).len()
            &&& forall|i: int| 0 <= i < keys.len() ==> (#[trigger] keys[i]).len() <= MAX_KEY_LEN
        },
    decreases n,
{
    if n > 0 {
        lemma_parse_keys_shape(bytes, pos, (n - 1) as nat);
        if let Some((keys, p)) = parse_keys(bytes, pos, n) {
            let before = parse_keys(bytes, pos, (n - 1) as nat)->0;
            assert(keys.drop_last() =~= before.0);
            lemma_keys_bytes_len(keys);
        }
    }
}

/// Once the bytes end before `n` keys, they end before any larger number.
pub proof fn lemma_parse_keys_none(bytes: Seq<u8>, pos: int, n: nat, m: nat)
    requires
        parse_keys(bytes, pos, n) is None,
        n <= m,
    ensures
        parse_keys(bytes, pos, m) is None,
    decreases m,
{
    if n < m {
        lemma_parse_keys_none(bytes, pos, n, (m - 1) as nat);
    }
}

/// Appending bytes does not change keys that were parsed before.
pub proof fn lemma_parse_keys_stable(bytes: Seq<u8>, more: Seq<u8>, pos: int, n: nat)
    requires
        parse_keys(bytes, pos, n) is Some,
    ensures
        parse_keys(bytes + more, pos, n) == parse_keys(bytes, pos, n),
    decreases n,
{
    if n > 0 {
        lemma_parse_keys_stable(bytes, more, pos, (n - 1) as nat);
        let (keys, p) = parse_keys(bytes, pos, (n - 1) as nat)->0;
        let k = bytes[p] as int;
        assert((bytes + more).subrange(p + 1, p + 1 + k) =~= bytes.subrange(p + 1, p + 1 + k));
    }
}

/// Keys that were written at `pos` are parsed back.
pub proof fn lemma_parse_keys_written(bytes: Seq<u8>, pos: int, keys: Seq<Seq<u8>>)
    requires
        0 <= pos,
        pos + keys_bytes(keys).len() <= bytes.len(),
        bytes.subrange(pos, pos + keys_bytes(keys).len()) == keys_bytes(keys),
        forall|i: int| 0 <= i < keys.len() ==> (#[trigger] keys[i]).len() <= MAX_KEY_LEN,
    ensures
        parse_keys(bytes, pos, keys.len()) == Some((keys, pos + keys_bytes(keys).len())),
    decreases keys.len(),
{
    if keys.len() > 0 {
        let front = keys.drop_last();
        let last = keys.last();
        let flen = keys_bytes(front).len() as int;
        lemma_keys_bytes_len(keys);
        let whole = bytes.subrange(pos, pos + keys_bytes(keys).len());
        assert(bytes.subrange(pos, pos + flen) =~= whole.subrange(0, flen));
        assert(whole.subrange(0, flen) =~= keys_bytes(front));
        lemma_parse_keys_written(bytes, pos, front);
        let p = pos + flen;
        assert(bytes[p] == whole[flen]);
        assert(whole[flen] == last.len() as u8);
        assert(keys[keys.len() - 1].len() <= MAX_KEY_LEN);
        assert(bytes.subrange(p + 1, p + 1 + last.len()) =~= whole.subrange(
            flen + 1,
            flen + 1 + last.len(),
        ));
        assert(whole.subrange(flen + 1, flen + 1 + last.len()) =~= last);
        assert(front.push(last) =~= keys);
    } else {
        assert(keys =~= Seq::empty());
    }
}

/// Appending bytes does not change a record that was there before.
pub proof fn lemma_content_at_stable(bytes: Seq<u8>, more: Seq<u8>, pos: int)
    requires
        content_at(bytes, pos) is Some,
    ensures
        content_at(bytes + more, pos) == content_at(bytes, pos),
{
    let n = bytes[pos + 1] as nat;
    lemma_parse_keys_stable(bytes, more, pos + 8, n);
    lemma_parse_keys_shape(bytes, pos + 8, n);
    let (keys, p) = parse_keys(bytes, pos + 8, n)->0;
    let plen = be48(bytes.subrange(pos + 2, pos + 8));
    assert((bytes + more).subrange(pos + 2, pos + 8) =~= bytes.subrange(pos + 2, pos + 8));
    assert((bytes + more).subrange(p, p + plen) =~= bytes.subrange(p, p + plen));
}

/// A record that fits, written at the end of a log, is read back there.
pub proof fn lemma_content_at_written(bytes: Seq<u8>, c: ContentView)
    requires
        match c {
            ContentView::Data(keys, payload) => fits(keys, payload),
            ContentView::Extension(payload) => payload.len() < PAYLOAD_LIMIT,
        },
    ensures
        content_at(bytes + content_bytes(c), bytes.len() as int) == Some(
            (c, (bytes.len() + content_bytes(c).len()) as int),
        ),
{
    let (kind, keys, payload) = match c {
        ContentView::Data(keys, payload) => (KIND_DATA, keys, payload),
        ContentView::Extension(payload) => (KIND_EXTENSION, Seq::<Seq<u8>>::empty(), payload),
    };
    let rec = record_bytes(kind, keys, payload);
    let all = bytes + rec;
    let pos = bytes.len() as int;
    let kb = keys_bytes(keys);
    lemma_be48_of_bytes(payload.len() as int);
    lemma_keys_bytes_len(keys);
    assert(rec.len() == 8 + kb.len() + payload.len());
    assert(all[pos] == kind);
    assert(all[pos + 1] == keys.len() as u8);
    assert(all.subrange(pos + 2, pos + 8) =~= be48_bytes(payload.len() as int));
    assert(all.subrange(pos + 8, pos + 8 + kb.len()) =~= kb);
    lemma_parse_keys_written(all, pos + 8, keys);
    let p = pos + 8 + kb.len();
    assert(all.subrange(p, p + payload.len()) =~= payload);
}

/// Writing one more record that fits adds it at the end of the records.
pub proof fn lemma_records_from_written(bytes: Seq<u8>, pos: int, c: ContentView)
    requires
        0 <= pos <= bytes.len(),
        bytes.len() + content_bytes(c).len() <= MAX_OFFSET,
        records_from(bytes, pos) is Ok,
        match c {
            ContentView::Data(keys, payload) => fits(keys, payload),
            ContentView::Extension(payload) => payload.len() < PAYLOAD_LIMIT,
        },
    ensures
        records_from(bytes + content_bytes(c), pos) == Ok::<Seq<Stored>, int>(
            records_from(bytes, pos)->Ok_0.push(
                Stored { offset: Offset { value: (bytes.len() + 1) as u64 }, content: c },
            ),
        ),
    decreases bytes.len() - pos,
{
    let all = bytes + content_bytes(c);
    let added = Stored { offset: Offset { value: (bytes.len() + 1) as u64 }, content: c };
    if pos == bytes.len() {
        lemma_content_at_written(bytes, c);
        assert(records_from(all, all.len() as int) == Ok::<Seq<Stored>, int>(Seq::empty()));
        assert(content_bytes(c).len() >= 8);
        assert(records_from(bytes, pos)->Ok_0.push(added) =~= seq![added] + Seq::empty());
    } else {
        let (first, end) = content_at(bytes, pos)->0;
        lemma_content_at_stable(bytes, content_bytes(c), pos);
        lemma_parse_keys_shape(bytes, pos + 8, bytes[pos + 1] as nat);
        lemma_records_from_written(bytes, end, c);
        let head = Stored { offset: Offset { value: (pos + 1) as u64 }, content: first };
        let rest = records_from(bytes, end)->Ok_0;
        assert((seq![head] + rest).push(added) =~= seq![head] + rest.push(added));
    }
}

/// Every record of a log is found at its address, addresses grow along the
/// log, and none is zero or beyond the log.
pub proof fn lemma_records_from_resolve(bytes: Seq<u8>, pos: int)
    requires
        0 <= pos,
        bytes.len() <= MAX_OFFSET,
        records_from(bytes, pos) is Ok,
    ensures
        forall|i: int|
            0 <= i < records_from(bytes, pos)->Ok_0.len() ==> {
                let r = #[trigger] records_from(bytes, pos)->Ok_0[i];
                &&& pos < r.offset.value <= bytes.len()
                &&& resolve(bytes, r.offset) == Some(r.content)
            },
        forall|i: int, j: int|
            0 <= i < j < records_from(bytes, pos)->Ok_0.len() ==> (#[trigger] records_from(
                bytes,
                pos,
            )->Ok_0[i]).offset.value < (#[trigger] records_from(bytes, pos)->Ok_0[j]).offset.value,
    decreases bytes.len() - pos,
{
    if pos < bytes.len() {
        let (first, end) = content_at(bytes, pos)->0;
        lemma_parse_keys_shape(bytes, pos + 8, bytes[pos + 1] as nat);
        lemma_records_from_resolve(bytes, end);
        let rest = records_from(bytes, end)->Ok_0;
        let all = records_from(bytes, pos)->Ok_0;
        assert forall|i: int| 0 <= i < all.len() implies {
            let r = #[trigger] all[i];
            &&& pos < r.offset.value <= bytes.len()
            &&& resolve(bytes, r.offset) == Some(r.content)
        } by {
            if i > 0 {
                assert(all[i] == rest[i - 1]);
            }
        }
        assert forall|i: int, j: int| 0 <= i < j < all.len() implies (#[trigger] all[i]).offset.value
            < (#[trigger] all[j]).offset.value by {
            assert(all[j] == rest[j - 1]);
            if i > 0 {
                assert(all[i] == rest[i - 1]);
            }
        }
    }
}

/// The content log.
pub struct DataFile {
    pub bytes: Vec<u8>,
    /// Most bytes the log can hold.
    pub limit: u64,
}

impl View for DataFile {
    type V = Seq<u8>;

    open spec fn view(&self) -> Seq<u8> {
        self.bytes@
    }
}

impl DataFile {
    /// The log is within its limit, and every address into it fits in 48
    /// bits.
    pub open spec fn wf(&self) -> bool {
        self.bytes@.len() <= self.limit <= MAX_OFFSET
    }

    /// An empty log that can grow as far as addresses reach.
    pub fn new() -> (r: DataFile)
        ensures
            r@ == Seq::<u8>::empty(),
            r.limit == MAX_OFFSET,
            r.wf(),
    {
        DataFile { bytes: Vec::new(), limit: MAX_OFFSET }
    }

    /// An empty log on storage of `limit` bytes, or as far as addresses
    /// reach if that is less.
    pub fn with_limit(limit: u64) -> (r: DataFile)
        ensures
            r@ == Seq::<u8>::empty(),
            r.limit == if limit <= MAX_OFFSET {
                limit
            } else {
                MAX_OFFSET
            },
            r.wf(),
    {
        if limit <= MAX_OFFSET {
            DataFile { bytes: Vec::new(), limit }
        } else {
            DataFile { bytes: Vec::new(), limit: MAX_OFFSET }
        }
    }

    /// A log over bytes that were stored earlier; `IO` for more bytes than
    /// addresses reach.
    pub fn from_bytes(bytes: Vec<u8>) -> (r: Result<DataFile, BCDBError>)
        ensures
            bytes@.len() <= MAX_OFFSET ==> r is Ok && r->Ok_0@ == bytes@ && r->Ok_0.limit
                == MAX_OFFSET && r->Ok_0.wf(),
            bytes@.len() > MAX_OFFSET ==> r == Err::<DataFile, BCDBError>(BCDBError::IO),
    {
        if bytes.len() as u64 <= MAX_OFFSET {
            Ok(DataFile { bytes, limit: MAX_OFFSET })
        } else {
            Err(BCDBError::IO)
        }
    }

    /// Empties the log.
    pub fn init(&mut self)
        requires
            old(self).wf(),
        ensures
            final(self)@ == Seq::<u8>::empty(),
            final(self).limit == old(self).limit,
            final(self).wf(),
    {
        self.bytes.clear();
    }

    /// Number of bytes in the log.
    pub fn len(&self) -> (r: u64)
        requires
            self.wf(),
        ensures
            r == self@.len(),
    {
        self.bytes.len() as u64
    }

    /// Drops the bytes beyond `len`; a log that is not longer stays as it is.
    pub fn truncate(&mut self, len: u64)
        requires
            old(self).wf(),
        ensures
            final(self).wf(),
            final(self).limit == old(self).limit,
            len <= old(self)@.len() ==> final(self)@ == old(self)@.subrange(0, len as int),
            len > old(self)@.len() ==> final(self)@ == old(self)@,
    {
        if len <= self.bytes.len() as u64 {
            self.bytes.truncate(len as usize);
        }
    }

    /// Writes one record at the end of the log.
    fn append(&mut self, kind: u8, keys: &Vec<Vec<u8>>, payload: &[u8]) -> (r: Result<
        Offset,
        BCDBError,
    >)
        requires
            old(self).wf(),
        ensures
            final(self).wf(),
            final(self).limit == old(self).limit,
            !fits(keys.deep_view(), payload@) ==> r == Err::<Offset, BCDBError>(
                BCDBError::DoesNotFit,
            ),
            fits(keys.deep_view(), payload@) && old(self)@.len() + record_bytes(
                kind,
                keys.deep_view(),
                payload@,
            ).len() > old(self).limit ==> r == Err::<Offset, BCDBError>(BCDBError::IO),
            fits(keys.deep_view(), payload@) && old(self)@.len() + record_bytes(
                kind,
                keys.deep_view(),
                payload@,
            ).len() <= old(self).limit ==> r is Ok,
            r is Err ==> final(self)@ == old(self)@,
            r is Ok ==> {
                &&& r->Ok_0.value == old(self)@.len() + 1
                &&& final(self)@ == old(self)@ + record_bytes(kind, keys.deep_view(), payload@)
            },
    {
        if keys.len() > MAX_KEYS || payload.len() >= PAYLOAD_LIMIT {
            return Err(BCDBError::DoesNotFit);
        }
        let mut rec: Vec<u8> = Vec::new();
        rec.push(kind);
        rec.push(keys.len() as u8);
        let plen = Offset { value: payload.len() as u64 };
        plen.write(&mut rec);
        let ghost head = rec@;
        let mut i: usize = 0;
        while i < keys.len()
            invariant
                self@ == old(self)@,
                self.limit == old(self).limit,
                self.wf(),
                payload@.len() < PAYLOAD_LIMIT,
                i <= keys@.len() <= MAX_KEYS,
                head.len() == 8,
                rec@ == head + keys_bytes(keys.deep_view().subrange(0, i as int)),
                rec@.len() <= 8 + 256 * i,
                forall|j: int| 0 <= j < i ==> (#[trigger] keys.deep_view()[j]).len() <= MAX_KEY_LEN,
            decreases keys@.len() - i,
        {
            let key = &keys[i];
            proof {
                lemma_bytes_view(*key);
            }
            assert(keys.deep_view()[i as int] == key@);
            if key.len() > MAX_KEY_LEN {
                return Err(BCDBError::DoesNotFit);
            }
            rec.push(key.len() as u8);
            push_all(&mut rec, key.as_slice());
            proof {
                let upto = keys.deep_view().subrange(0, i + 1);
                assert(upto.drop_last() =~= keys.deep_view().subrange(0, i as int));
                assert(upto.last() == key@);
                assert(rec@ =~= head + keys_bytes(upto));
            }
            i += 1;
        }
        assert(keys.deep_view().subrange(0, i as int) =~= keys.deep_view());
        push_all(&mut rec, payload);
        assert(rec@ =~= record_bytes(kind, keys.deep_view(), payload@));
        if rec.len() as u64 > self.limit - self.bytes.len() as u64 {
            return Err(BCDBError::IO);
        }
        let offset = Offset { value: self.bytes.len() as u64 + 1 };
        self.bytes.append(&mut rec);
        Ok(offset)
    }

    /// Appends a record with keys and returns its address.
    pub fn append_data(&mut self, keys: &Vec<Vec<u8>>, payload: &[u8]) -> (r: Result<
        Offset,
        BCDBError,
    >)
        requires
            old(self).wf(),
        ensures
            final(self).wf(),
            r == Err::<Offset, BCDBError>(BCDBError::DoesNotFit) <==> !fits(
                keys.deep_view(),
                payload@,
            ),
            r == Err::<Offset, BCDBError>(BCDBError::IO) <==> fits(keys.deep_view(), payload@)
                && old(self)@.len() + content_bytes(
                ContentView::Data(keys.deep_view(), payload@),
            ).len() > old(self).limit,
            final(self).limit == old(self).limit,
            r is Err ==> final(self)@ == old(self)@ && (r->Err_0 == BCDBError::DoesNotFit || r->Err_0
                == BCDBError::IO),
            r is Ok ==> {
                &&& r->Ok_0.value == old(self)@.len() + 1
                &&& final(self)@ == old(self)@ + content_bytes(
                    ContentView::Data(keys.deep_view(), payload@),
                )
                &&& resolve(final(self)@, r->Ok_0) == Some(
                    ContentView::Data(keys.deep_view(), payload@),
                )
            },
    {
        proof {
            if fits(keys.deep_view(), payload@) {
                lemma_content_at_written(self@, ContentView::Data(keys.deep_view(), payload@));
            }
        }
        self.append(KIND_DATA, keys, payload)
    }

    /// Appends a record without keys and returns its address.
    pub fn append_data_extension(&mut self, payload: &[u8]) -> (r: Result<Offset, BCDBError>)
        requires
            old(self).wf(),
        ensures
            final(self).wf(),
            r == Err::<Offset, BCDBError>(BCDBError::DoesNotFit) <==> payload@.len()
                >= PAYLOAD_LIMIT,
            r == Err::<Offset, BCDBError>(BCDBError::IO) <==> payload@.len() < PAYLOAD_LIMIT
                && old(self)@.len() + content_bytes(ContentView::Extension(payload@)).len()
                > old(self).limit,
            final(self).limit == old(self).limit,
            r is Err ==> final(self)@ == old(self)@ && (r->Err_0 == BCDBError::DoesNotFit || r->Err_0
                == BCDBError::IO),
            r is Ok ==> {
                &&& r->Ok_0.value == old(self)@.len() + 1
                &&& final(self)@ == old(self)@ + content_bytes(ContentView::Extension(payload@))
                &&& resolve(final(self)@, r->Ok_0) == Some(ContentView::Extension(payload@))
            },
    {
        let keys: Vec<Vec<u8>> = Vec::new();
        proof {
            lemma_keys_empty(keys);
            if payload@.len() < PAYLOAD_LIMIT {
                lemma_content_at_written(self@, ContentView::Extension(payload@));
            }
        }
        self.append(KIND_EXTENSION, &keys, payload)
    }

    /// Decodes the record that starts at byte `pos`.
    fn decode_at(&self, pos: usize) -> (r: Option<(Content, usize)>)
        ensures
            r is Some <==> content_at(self@, pos as int) is Some,
            r matches Some((c, end)) ==> content_at(self@, pos as int) == Some((c@, end as int)),
    {
        let bytes = self.bytes.as_slice();
        let len = bytes.len();
        if pos > len || len - pos < RECORD_HEADER {
            return None;
        }
        let kind = bytes[pos];
        let n = bytes[pos + 1] as usize;
        let plen = Offset::read(bytes, pos + 2).value;
        let mut keys: Vec<Vec<u8>> = Vec::new();
        proof {
            lemma_keys_empty(keys);
        }
        let mut p: usize = pos + RECORD_HEADER;
        let mut i: usize = 0;
        while i < n
            invariant
                i <= n,
                bytes@ == self@,
                len == bytes@.len(),
                pos + 8 <= p <= len,
                n == bytes@[pos + 1],
                kind == bytes@[pos as int],
                plen == be48(bytes@.subrange(pos + 2, pos + 8)),
                parse_keys(bytes@, pos + 8, i as nat) == Some((keys.deep_view(), p as int)),
            decreases n - i,
        {
            if p >= len || len - p - 1 < bytes[p] as usize {
                proof {
                    lemma_parse_keys_none(bytes@, pos + 8, (i + 1) as nat, n as nat);
                }
                return None;
            }
            let klen = bytes[p] as usize;
            let key = copy_range(bytes, p + 1, p + 1 + klen);
            let ghost before = keys;
            keys.push(key);
            proof {
                lemma_keys_push(before, keys, key);
            }
            p = p + 1 + klen;
            i += 1;
        }
        if plen > (len - p) as u64 {
            return None;
        }
        let payload = copy_range(bytes, p, p + plen as usize);
        if kind == KIND_DATA {
            Some((Content::Data(keys, payload), p + plen as usize))
        } else if kind == KIND_EXTENSION && n == 0 {
            Some((Content::Extension(payload), p + plen as usize))
        } else {
            None
        }
    }

    /// The record at `offset`; `Corrupted` with that address if the bytes
    /// there are not a well-formed record.
    pub fn get_content(&self, offset: Offset) -> (r: Result<Content, BCDBError>)
        ensures
            match resolve(self@, offset) {
                Some(c) => r is Ok && r->Ok_0@ == c,
                None => r == Err::<Content, BCDBError>(BCDBError::Corrupted(offset)),
            },
    {
        if offset.value == 0 || offset.value > self.bytes.len() as u64 {
            return Err(BCDBError::Corrupted(offset));
        }
        match self.decode_at((offset.value - 1) as usize) {
            Some((c, _)) => Ok(c),
            None => Err(BCDBError::Corrupted(offset)),
        }
    }

    /// Every record of the log from its start, oldest first, each with its
    /// address; a record without keys is listed with an empty key list.
    /// `Corrupted` with the first address at which the bytes are no record.
    pub fn iter(&self) -> (r: Result<Vec<(Offset, Vec<Vec<u8>>, Vec<u8>)>, BCDBError>)
        requires
            self.wf(),
        ensures
            match records_from(self@, 0) {
                Ok(rs) => r is Ok && r->Ok_0.deep_view() == listing(rs),
                Err(pos) => r == Err::<Vec<(Offset, Vec<Vec<u8>>, Vec<u8>)>, BCDBError>(
                    BCDBError::Corrupted(Offset { value: (pos + 1) as u64 }),
                ),
            },
    {
        let mut out: Vec<(Offset, Vec<Vec<u8>>, Vec<u8>)> = Vec::new();
        let mut pos: usize = 0;
        let ghost mut seen: Seq<Stored> = Seq::empty();
        while pos < self.bytes.len()
            invariant
                self.wf(),
                pos <= self@.len(),
                out.deep_view() == listing(seen),
                records_from(self@, 0) == match records_from(self@, pos as int) {
                    Ok(rest) => Ok::<Seq<Stored>, int>(seen + rest),
                    Err(e) => Err::<Seq<Stored>, int>(e),
                },
            decreases self@.len() - pos,
        {
            match self.decode_at(pos) {
                None => {
                    return Err(BCDBError::Corrupted(Offset { value: pos as u64 + 1 }));
                },
                Some((c, end)) => {
                    proof {
                        lemma_parse_keys_shape(self@, pos + 8, self@[pos + 1] as nat);
                    }
                    let offset = Offset { value: pos as u64 + 1 };
                    let ghost stored = Stored { offset, content: c@ };
                    let item = match c {
                        Content::Data(keys, payload) => (offset, keys, payload),
                        Content::Extension(payload) => (offset, Vec::new(), payload),
                    };
                    let ghost before = out;
                    out.push(item);
                    proof {
                        let rest = records_from(self@, end as int);
                        if let Ok(tail) = rest {
                            assert(seen + (seq![stored] + tail) =~= seen.push(stored) + tail);
                        }
                        if stored.content is Extension {
                            lemma_keys_empty(item.1);
                        }
                        lemma_bytes_view(item.2);
                        assert(item.deep_view() == listed(stored));
                        lemma_listing_push(before, out, item);
                        assert(listing(seen.push(stored)) =~= listing(seen).push(listed(stored)));
                        seen = seen.push(stored);
                    }
                    pos = end;
                },
            }
        }
        proof {
            assert(seen + Seq::<Stored>::empty() =~= seen);
        }
        Ok(out)
    }
}

/// Pushing an item onto a listing pushes its view onto the listing's view.
pub proof fn lemma_listing_push(
    before: Vec<(Offset, Vec<Vec<u8>>, Vec<u8>)>,
    after: Vec<(Offset, Vec<Vec<u8>>, Vec<u8>)>,
    item: (Offset, Vec<Vec<u8>>, Vec<u8>),
)
    requires
        after@ == before@.push(item),
    ensures
        after.deep_view() == before.deep_view().push(item.deep_view()),
{
    assert(after.deep_view() =~= before.deep_view().push(item.deep_view()));
}

/// A record as a listing shows it: address, keys (none for a record without
/// keys) and payload.
pub open spec fn listed(s: Stored) -> (Offset, Seq<Seq<u8>>, Seq<u8>) {
    match s.content {
        ContentView::Data(keys, payload) => (s.offset, keys, payload),
        ContentView::Extension(payload) => (s.offset, Seq::empty(), payload),
    }
}

/// Records as a listing shows them.
pub open spec fn listing(rs: Seq<Stored>) -> Seq<(Offset, Seq<Seq<u8>>, Seq<u8>)> {
    rs.map_values(|s: Stored| listed(s))
}

} // verus!
