use vstd::prelude::*;

verus! {

/// The kinds of failure that the file-system engine reports.
#[derive(Debug, Clone, Copy, PartialEq, Eq, Structural)]
pub enum FsError {
    /// A malformed name, a bad cluster number or another rejected argument.
    InvalidInput,
    /// A path component is missing.
    NotFound,
    /// Every candidate short alias is already taken.
    AlreadyExists,
    /// The operation needs a FAT variant that the engine does not handle.
    Unsupported,
    /// The on-disk structures are inconsistent (checksum mismatch, malformed entry).
    InvalidData,
    /// No free cluster is left.
    OutOfSpace,
    /// The underlying image handle failed.
    Io,
}

} // verus!
