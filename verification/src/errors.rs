//! Error outcomes reported by the memory substrate and the map engine.

use vstd::prelude::*;

verus! {

/// Every failure the engine reports to its immediate caller.
///
/// A failed mutating call leaves persisted state exactly as it was before the
/// call; a failed read is distinct from "key absent".
#[derive(Clone, Copy, Debug, PartialEq, Eq, Structural)]
pub enum MapError {
    /// A memory access reaches past the current size of the region.
    OutOfBounds,
    /// A translated access would land at or beyond the window's end page.
    WindowViolation,
    /// The host cannot extend the region (it hit a hard ceiling).
    GrowFailed,
    /// The serialized key exceeds the configured maximum key size.
    KeyTooLarge,
    /// The serialized value exceeds the configured maximum value size.
    ValueTooLarge,
    /// Stored or supplied bytes do not parse under the expected schema.
    DecodeError,
    /// A window's recorded size bounds disagree with the requested ones.
    SchemaMismatch,
}

} // verus!
