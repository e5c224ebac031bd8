//! The errors of the engine.
use vstd::prelude::*;

verus! {

/// What can go wrong in the engine. Names and keys are the raw bytes.
#[derive(Debug)]
pub enum DbError {
    /// The underlying storage failed.
    IoError,
    /// A concurrent prepared transaction holds a conflicting entry for `key`,
    /// or the table moved and the entry of `key` changed since the snapshot.
    PrepareConflict { key: Vec<u8> },
    /// Commit without a successful prepare.
    PrepareMissing,
    /// A table of that name exists already.
    DuplicateTable { name: Vec<u8> },
    /// No table of that name exists.
    TableNotFound { name: Vec<u8> },
    /// The table still has `ref_count` forks.
    TableInUse { name: Vec<u8>, ref_count: u64 },
    /// Index iterators are not offered.
    NotImplemented,
}

/// The state of a transaction.
#[derive(Clone, Copy, PartialEq, Eq, Structural, Debug)]
pub enum TxState {
    Active,
    Preparing,
    PreparedOk,
    PreparedFail,
    Committing,
    Committed,
    CommitFailed,
    Rollbacking,
    Rollbacked,
    RollbackFailed,
}

} // verus!
