use vstd::prelude::*;

verus! {

/// The error kinds the engine reports. Every failure is surfaced to the
/// direct caller; none is swallowed.
#[derive(Clone, Copy, Debug, PartialEq, Eq, Structural)]
pub enum Error {
    /// The underlying storage read/write/mapping failed.
    Io,
    /// Both superblock slots are invalid, or the file does not carry this
    /// engine's header format.
    CorruptDatabase,
    /// The page allocator exhausted the fixed mapped region. The current
    /// write transaction is rolled back; the committed state is untouched.
    OutOfSpace,
    /// A second write transaction was started while one was active
    /// (non-blocking single-writer policy).
    WriteConflict,
    /// An argument the engine rejects: an empty table name, an unsupported
    /// page size, an entry too large for a page, or a table opened under
    /// the wrong table type.
    InvalidArgument,
}

} // verus!
