//! What can go wrong in each operation of the store.

use vstd::prelude::*;

use crate::layout::FileId;

verus! {

/// Why the on-disk state was rejected at recovery.
#[derive(Debug, Clone, Copy, PartialEq, Eq)]
pub enum OpenError {
    /// The named file holds fewer bytes than the committed length calls for.
    LengthMismatch(FileId),
    /// The committed numbers of the named file decrease somewhere.
    OutOfOrder(FileId),
    /// The data file of the table with this index ends before the table's last offset.
    DataTooSmall(usize),
}

/// Why an append did not commit.
#[derive(Debug, Clone, Copy, PartialEq, Eq)]
pub enum WriteError {
    /// The number of values differs from the number of tables.
    Arity,
    /// A file operation of the commit sequence failed.
    Io,
}

/// Why a key could not be resolved to a byte extent.
#[derive(Debug, Clone, Copy, PartialEq, Eq)]
pub enum ReadError {
    /// No table of the store has the given name.
    UnknownTable,
    /// The offsets seen for a table do not cover a record whose key was seen.
    Inconsistent,
}

/// Why a range iterator could not serve a request.
#[derive(Debug, Clone, Copy, PartialEq, Eq)]
pub enum IterError {
    /// A payload was asked for before the iterator's first step.
    NotStarted,
    /// The request failed as a point read would.
    Read(ReadError),
}

} // verus!
