//! Error kinds surfaced by the store and codec.

use vstd::prelude::*;

verus! {

/// Every failure a caller of this library can observe.
#[derive(Clone, Copy, Debug, PartialEq, Eq, Structural)]
pub enum Error {
    /// A canonical decode failed: truncated input, a length overflow, or an
    /// inconsistent reference block.
    MalformedObject,
    /// A digest whose algorithm the store does not implement.
    UnsupportedDigest,
    /// The underlying key-value backend failed.
    StorageError,
    /// A handle's digest is not present in the store.
    HandleDangling,
    /// The compare-and-set precondition of a branch swap failed.
    BranchConflict,
    /// The operation is intentionally not provided.
    Unimplemented,
}

} // verus!
