//! The error type shared by the encoder, the PCA dimension checks and the
//! tree builder.

use vstd::prelude::*;

verus! {

/// A failure of the pipeline core.
///
/// Every component validates its input as early as possible and surfaces one
/// of these; no partial result is ever produced after a failure.
#[derive(Clone, Copy, Debug, PartialEq, Eq, Structural)]
pub enum PcaTreeError {
    /// Empty input, an out-of-range target dimension, or a distance matrix
    /// with no rows.
    Dimension,
    /// An input sequence whose length differs from the first sequence's:
    /// the offending index, the expected length and the actual length.
    LengthMismatch { index: usize, expected: usize, got: usize },
    /// A symbol outside the recognized alphabet, as the offending byte.
    Encoding { symbol: u8 },
    /// The eigendecomposition failed to converge.
    Numerical,
}

} // verus!
