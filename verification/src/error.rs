//! The errors of the store.

use vstd::prelude::*;
use crate::offset::Offset;

verus! {

/// What an operation of the store can fail with.
#[derive(Clone, Copy, Debug, PartialEq, Eq, Structural)]
pub enum BCDBError {
    /// Keys or payload exceed the limits of a content record.
    DoesNotFit,
    /// The bytes at the given address do not decode; for the recovery log the
    /// address is the number of the page.
    Corrupted(Offset),
    /// The storage beneath refused the operation: a log would outgrow its
    /// limit.
    IO,
}

} // verus!
