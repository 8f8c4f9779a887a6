//! The error surface of the storage core.

use vstd::prelude::*;

verus! {

/// Everything the storage operations can fail with.
#[derive(Debug, Clone, Copy, PartialEq, Eq, Structural)]
pub enum FsError {
    /// An input was rejected before any storage side effect occurred:
    /// an empty file name, or a path holding a forbidden character.
    ValidationError,
    /// A second live file with the same (path, name) pair.
    AlreadyExists,
    /// A record (root, version, or chunk) is absent on direct lookup.
    NotFound,
    /// A chunk identity listed by a metadata record is absent from the
    /// chunk store: a replication gap, distinct from `NotFound` on the
    /// owning record.
    ChunkMissing,
    /// A stored record cannot be decoded as the expected type.
    Malformed,
}

} // verus!
