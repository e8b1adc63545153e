//! Errors surfaced by the indexing and snapshot components.

use vstd::prelude::*;

verus! {

/// What can go wrong inside the core engine. I/O failures and malformed
/// intermediate lines are reported by the service layer, which owns the
/// files; the core only ever sees decoded values.
#[derive(Clone, Copy, Debug, PartialEq, Eq, Structural)]
pub enum IndexError {
    /// Two records share a display name.
    DuplicateDocument,
    /// An archive container could not be parsed.
    ArchiveMalformed,
    /// A snapshot could not be decoded.
    SnapshotCorrupt,
}

} // verus!
