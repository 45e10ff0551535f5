//! What can go wrong while an index is built or searched.

use vstd::prelude::*;

verus! {

/// The failures that the index reports to its caller.
#[derive(Debug, Clone, Copy, PartialEq, Eq, Structural)]
pub enum Error {
    /// Two sketches were made with different k-mer sizes.
    MismatchKSizes,
    /// Two sketches were made with different hash functions.
    MismatchDNAProt,
    /// A sketch is too coarse to be downsampled to the template.
    MismatchScaled,
    /// Two sketches were made with different seeds.
    MismatchSeed,
    /// A signature file could not be read or parsed.
    SignatureLoadFailure,
    /// The key-value store reported a failure.
    StoreFailure,
    /// A stored value is not the encoding of what its column holds.
    DeserializationFailure,
    /// A signature holds no sketch.
    NoCompatibleSketch,
    /// A write was asked of an index that was opened for reading only.
    ReadOnly,
}

} // verus!
