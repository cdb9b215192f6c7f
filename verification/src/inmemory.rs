//! A store that lives in memory from its first byte.

use vstd::prelude::*;
use crate::bcdb::{BCDBFactory, BCDB};
use crate::datafile::{records, DataFile, Stored};
use crate::error::BCDBError;
use crate::linkfile::LinkFile;
use crate::logfile::{log_pages, LogFile, LogPageView};
use crate::model::{bucket_chain, indexed};
use crate::offset::Offset;
use crate::table::{bucket_at, TableFile, BUCKETS};

verus! {

/// Makes stores whose four regions start empty.
pub struct InMemory {}

impl BCDBFactory for InMemory {
    /// A new, empty store; the name is not used.
    fn new_db(name: &str) -> (r: Result<BCDB, BCDBError>)
        ensures
            r matches Ok(db) && {
                &&& db.inv()
                &&& db.committed()
                &&& db.data@ == Seq::<u8>::empty()
                &&& db.link@ == Seq::<u8>::empty()
                &&& db.table@ == Seq::<u8>::empty()
                &&& db@ == Seq::<Stored>::empty()
            },
    {
        let r = BCDB::new(LogFile::new(), TableFile::new(), DataFile::new(), LinkFile::new());
        proof {
            let empty = Seq::<u8>::empty();
            assert(log_pages(empty) == Ok::<Seq<LogPageView>, int>(Seq::empty()));
            let db = r->Ok_0;
            assert forall|b: int| 0 <= b < BUCKETS implies #[trigger] bucket_chain(
                db.mem,
                db.link@,
                b,
            ) == Some(indexed(records(db.data@), b)) by {
                assert(bucket_at(db.table@, b) == db.mem.heads@[b]);
                assert(Seq::<(u32, Offset)>::empty() + db.mem.pending@[b]@ =~= Seq::<
                    (u32, Offset),
                >::empty());
            }
        }
        r
    }
}

} // verus!
