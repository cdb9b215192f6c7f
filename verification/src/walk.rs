//! The walk along the chain of a bucket that a lookup makes, from the newest
//! entry to the oldest.

use vstd::prelude::*;
use crate::bytes::{contains_key, lemma_bytes_view};
use crate::datafile::{lemma_listing_push, resolve, Content, ContentView, DataFile};
use crate::error::BCDBError;
use crate::hashing::hash;
use crate::linkfile::link_resolve;
use crate::offset::Offset;

verus! {

/// A record that a lookup found: its address, its keys and its payload.
pub type Hit = (Offset, Seq<Seq<u8>>, Seq<u8>);

/// What a walk yields: the records found in the order in which they are
/// found, and the error that ended the walk, if one did.
pub struct Trail {
    pub found: Seq<Hit>,
    pub failed: Option<BCDBError>,
}

/// The trail of a walk that finds nothing and does not fail.
pub open spec fn nothing() -> Trail {
    Trail { found: Seq::empty(), failed: None }
}

/// The trail of a walk that finds one record.
pub open spec fn just(hit: Hit) -> Trail {
    Trail { found: seq![hit], failed: None }
}

/// The trail of a walk that finds these records and does not fail.
pub open spec fn finds(hits: Seq<Hit>) -> Trail {
    Trail { found: hits, failed: None }
}

/// The trail of a walk that fails at once.
pub open spec fn fails(e: BCDBError) -> Trail {
    Trail { found: Seq::empty(), failed: Some(e) }
}

/// One part of a walk followed by the next: where the first part fails the
/// walk ends; else what both find, in order, and the error of the second.
pub open spec fn then(a: Trail, b: Trail) -> Trail {
    if a.failed is Some {
        a
    } else {
        Trail { found: a.found + b.found, failed: b.failed }
    }
}

/// What one chain entry contributes to a lookup of `key`: nothing if its tag
/// is not the hash of the key; else the record at its address if that has
/// `key` among its keys, nothing if it has not, and `Corrupted` with the
/// address if there is no record.
pub open spec fn probe(data: Seq<u8>, key: Seq<u8>, e: (u32, Offset)) -> Trail {
    if e.0 != hash(key) {
        nothing()
    } else {
        match resolve(data, e.1) {
            None => fails(BCDBError::Corrupted(e.1)),
            Some(ContentView::Data(keys, payload)) => {
                if keys.contains(key) {
                    just((e.1, keys, payload))
                } else {
                    nothing()
                }
            },
            Some(ContentView::Extension(_)) => nothing(),
        }
    }
}

/// What a lookup of `key` finds among `entries`, which are in the order in
/// which they were put: the newest is probed first.
pub open spec fn scan(data: Seq<u8>, key: Seq<u8>, entries: Seq<(u32, Offset)>) -> Trail
    decreases entries.len(),
{
    if entries.len() == 0 {
        nothing()
    } else {
        then(probe(data, key, entries.last()), scan(data, key, entries.drop_last()))
    }
}

/// What a lookup of `key` finds in the records of the link log from `head`
/// backwards. A record that does not decode, or whose previous record is not
/// before it, ends the walk with `Corrupted` and the record's address.
pub open spec fn walk(link: Seq<u8>, data: Seq<u8>, key: Seq<u8>, head: Offset) -> Trail
    decreases head.value,
{
    if head.value == 0 {
        nothing()
    } else {
        match link_resolve(link, head) {
            None => fails(BCDBError::Corrupted(head)),
            Some((entries, previous)) => {
                if previous.value >= head.value {
                    fails(BCDBError::Corrupted(head))
                } else {
                    then(scan(data, key, entries), walk(link, data, key, previous))
                }
            },
        }
    }
}

/// A part that finds nothing and does not fail adds nothing to a walk.
pub proof fn lemma_then_nothing(t: Trail)
    ensures
        then(nothing(), t) == t,
        then(t, nothing()) == t,
{
    assert(Seq::<Hit>::empty() + t.found =~= t.found);
    assert(t.found + Seq::<Hit>::empty() =~= t.found);
}

/// Three parts of a walk can be taken together either way.
pub proof fn lemma_then_assoc(a: Trail, b: Trail, c: Trail)
    ensures
        then(a, then(b, c)) == then(then(a, b), c),
{
    assert(a.found + (b.found + c.found) =~= (a.found + b.found) + c.found);
}

/// Scanning two runs of entries: the later run is scanned first.
pub proof fn lemma_scan_concat(
    data: Seq<u8>,
    key: Seq<u8>,
    older: Seq<(u32, Offset)>,
    newer: Seq<(u32, Offset)>,
)
    ensures
        scan(data, key, older + newer) == then(scan(data, key, newer), scan(data, key, older)),
    decreases newer.len(),
{
    if newer.len() == 0 {
        assert(older + newer =~= older);
        lemma_then_nothing(scan(data, key, older));
    } else {
        let all = older + newer;
        assert(all.drop_last() =~= older + newer.drop_last());
        assert(all.last() == newer.last());
        lemma_scan_concat(data, key, older, newer.drop_last());
        lemma_then_assoc(
            probe(data, key, newer.last()),
            scan(data, key, newer.drop_last()),
            scan(data, key, older),
        );
    }
}

/// Probes one entry: the record it leads to, if that has `key`.
fn probe_entry(e: (u32, Offset), key: &[u8], h: u32, data: &DataFile) -> (r: Result<
    Option<(Offset, Vec<Vec<u8>>, Vec<u8>)>,
    BCDBError,
>)
    requires
        h == hash(key@),
    ensures
        match r {
            Ok(Some(item)) => probe(data@, key@, e) == just(item.deep_view()),
            Ok(None) => probe(data@, key@, e) == nothing(),
            Err(err) => probe(data@, key@, e) == fails(err),
        },
{
    if e.0 != h {
        return Ok(None);
    }
    match data.get_content(e.1) {
        Err(err) => Err(err),
        Ok(Content::Data(keys, payload)) => {
            if contains_key(&keys, key) {
                proof {
                    lemma_bytes_view(payload);
                }
                Ok(Some((e.1, keys, payload)))
            } else {
                Ok(None)
            }
        },
        Ok(Content::Extension(_)) => Ok(None),
    }
}

/// Probes `entries` from the newest to the oldest and appends what is found
/// to `out`, up to the entry that fails, if one does.
pub fn scan_into(
    entries: &Vec<(u32, Offset)>,
    key: &[u8],
    h: u32,
    data: &DataFile,
    out: &mut Vec<(Offset, Vec<Vec<u8>>, Vec<u8>)>,
) -> (r: Result<(), BCDBError>)
    requires
        h == hash(key@),
    ensures
        final(out).deep_view() == old(out).deep_view() + scan(data@, key@, entries@).found,
        match scan(data@, key@, entries@).failed {
            None => r is Ok,
            Some(e) => r == Err::<(), BCDBError>(e),
        },
{
    let mut i: usize = entries.len();
    let ghost mut seen: Trail = nothing();
    proof {
        assert(entries@.subrange(0, i as int) =~= entries@);
        assert(old(out).deep_view() + seen.found =~= old(out).deep_view());
        lemma_then_nothing(scan(data@, key@, entries@));
    }
    while i > 0
        invariant
            i <= entries@.len(),
            h == hash(key@),
            seen.failed is None,
            out.deep_view() == old(out).deep_view() + seen.found,
            scan(data@, key@, entries@) == then(
                seen,
                scan(data@, key@, entries@.subrange(0, i as int)),
            ),
        decreases i,
    {
        i -= 1;
        let e = entries[i];
        let ghost rest = scan(data@, key@, entries@.subrange(0, i as int));
        proof {
            let upto = entries@.subrange(0, i + 1);
            assert(upto.drop_last() =~= entries@.subrange(0, i as int));
            assert(upto.last() == e);
            lemma_then_assoc(seen, probe(data@, key@, e), rest);
        }
        match probe_entry(e, key, h, data) {
            Err(err) => {
                proof {
                    assert(seen.found + Seq::<Hit>::empty() =~= seen.found);
                }
                return Err(err);
            },
            Ok(None) => {
                proof {
                    lemma_then_nothing(seen);
                }
            },
            Ok(Some(item)) => {
                let ghost before = *out;
                out.push(item);
                proof {
                    lemma_listing_push(before, *out, item);
                    let hit = item.deep_view();
                    assert(old(out).deep_view() + (seen.found + seq![hit]) =~= (old(
                        out,
                    ).deep_view() + seen.found).push(hit));
                    seen = then(seen, just(hit));
                }
            },
        }
    }
    proof {
        lemma_then_nothing(seen);
    }
    Ok(())
}

/// Probes `entries` from the newest to the oldest up to the first record
/// that is found.
pub fn scan_first(entries: &Vec<(u32, Offset)>, key: &[u8], h: u32, data: &DataFile) -> (r:
    Result<Option<(Offset, Vec<Vec<u8>>, Vec<u8>)>, BCDBError>)
    requires
        h == hash(key@),
    ensures
        first_of(scan(data@, key@, entries@), r),
        r matches Ok(None) ==> scan(data@, key@, entries@) == nothing(),
{
    let mut i: usize = entries.len();
    proof {
        assert(entries@.subrange(0, i as int) =~= entries@);
    }
    while i > 0
        invariant
            i <= entries@.len(),
            h == hash(key@),
            scan(data@, key@, entries@) == scan(data@, key@, entries@.subrange(0, i as int)),
        decreases i,
    {
        i -= 1;
        let e = entries[i];
        let ghost rest = scan(data@, key@, entries@.subrange(0, i as int));
        proof {
            let upto = entries@.subrange(0, i + 1);
            assert(upto.drop_last() =~= entries@.subrange(0, i as int));
            assert(upto.last() == e);
        }
        match probe_entry(e, key, h, data) {
            Err(err) => {
                return Err(err);
            },
            Ok(None) => {
                proof {
                    lemma_then_nothing(rest);
                }
            },
            Ok(Some(item)) => {
                return Ok(Some(item));
            },
        }
    }
    Ok(None)
}

/// Whether `r` is the first of what a walk with this trail yields: the first
/// record found, if there is one; else the error that ended the walk; and
/// `None` if there is neither.
pub open spec fn first_of(
    trail: Trail,
    r: Result<Option<(Offset, Vec<Vec<u8>>, Vec<u8>)>, BCDBError>,
) -> bool {
    if trail.found.len() > 0 {
        r matches Ok(Some(item)) && item.deep_view() == trail.found[0]
    } else {
        match trail.failed {
            Some(e) => r == Err::<Option<(Offset, Vec<Vec<u8>>, Vec<u8>)>, BCDBError>(e),
            None => r matches Ok(None),
        }
    }
}

/// Whether `r` is all of what a walk with this trail yields: every record
/// found, in order, if the walk did not fail, and its error if it did.
pub open spec fn all_of(
    trail: Trail,
    r: Result<Vec<(Offset, Vec<Vec<u8>>, Vec<u8>)>, BCDBError>,
) -> bool {
    match trail.failed {
        Some(e) => r == Err::<Vec<(Offset, Vec<Vec<u8>>, Vec<u8>)>, BCDBError>(e),
        None => r matches Ok(items) && items.deep_view() == trail.found,
    }
}

} // verus!
