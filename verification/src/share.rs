//! The canonical interchange record.

use vstd::prelude::*;

verus! {

/// A library-agnostic key share: all fields are plain values, so the record
/// can travel between protocol stacks and onto disk without dragging either
/// stack's native types along.
///
/// Records describing the same logical key agree on `n` and `y_hex`, and
/// within one sharing mode on `t`; for additive-mode records `t == n`.
#[derive(Clone, Debug, PartialEq, Eq)]
pub struct PortableKeyShare {
    /// Participant index, 0-based.
    pub i: u16,
    /// Threshold: least number of shares that reconstructs the secret.
    pub t: u16,
    /// Total participant count.
    pub n: u16,
    /// The party's secret share: fixed-width big-endian hex scalar.
    pub x_hex: String,
    /// The group's shared public key: compressed-point hex.
    pub y_hex: String,
}

} // verus!
