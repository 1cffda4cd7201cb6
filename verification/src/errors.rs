use vstd::prelude::*;

verus! {

/// The error taxonomy of the storage core.
///
/// `OutOfRange` and `CorruptLogRecord` are handled locally by their callers:
/// the former as a typed absent result from page accessors, the latter as
/// end-of-usable-log during recovery scans. The others surface to the caller
/// as transaction-level failures.
#[derive(Clone, Copy, Debug, PartialEq, Eq, Structural)]
pub enum DbError {
    /// The named file does not exist in the block store, or the block number
    /// lies beyond the end of its file.
    BlockNotFound,
    /// A pin request found no buffer holding the block and no unpinned slot
    /// to claim.
    BufferUnavailable,
    /// A lock request could not be granted.
    LockTimeout,
    /// A log record carries an unknown operation tag or a truncated body.
    CorruptLogRecord,
    /// A page access lies beyond the block boundary.
    OutOfRange,
}

} // verus!
