//! Error taxonomy of the conversion core.
//!
//! Every operation is a pure function returning a `Result`; nothing is
//! retried here. The variants carry enough context (counts) for a caller to
//! diagnose a desynchronised participant set.

use vstd::prelude::*;

verus! {

#[derive(Clone, Copy, Debug, PartialEq, Eq, Structural)]
pub enum BridgeError {
    /// The input string is not valid hexadecimal.
    MalformedHex,
    /// The decoded byte string is wider than the scalar field's byte width.
    ScalarTooLong,
    /// The decoded integer is not a canonical field element.
    NonCanonicalScalar,
    /// The bytes are not a valid SEC1 point encoding.
    InvalidPoint,
    /// A participant coordinate occurs twice.
    DuplicatePoint,
    /// A Lagrange denominator vanished for distinct declared points.
    SingularDenominator,
    /// Fewer shares were supplied than the declared threshold requires.
    InsufficientShares { required: u16, actual: u16 },
    /// No shares were supplied at all.
    EmptyInput,
    /// A field inversion failed, i.e. a denominator was the additive identity.
    FieldInversionFailure,
    /// The records do not cover the declared participant index space.
    MismatchedParticipantSet,
}

impl BridgeError {
    /// Short description, in place of a `Display` implementation.
    pub fn describe(&self) -> String {
        match self {
            BridgeError::MalformedHex => String::from_str("malformed hex string"),
            BridgeError::ScalarTooLong => String::from_str("scalar encoding too long"),
            BridgeError::NonCanonicalScalar => String::from_str("non-canonical scalar"),
            BridgeError::InvalidPoint => String::from_str("invalid curve point"),
            BridgeError::DuplicatePoint => String::from_str("duplicate participant point"),
            BridgeError::SingularDenominator => String::from_str("singular denominator"),
            BridgeError::InsufficientShares { .. } => String::from_str("insufficient shares"),
            BridgeError::EmptyInput => String::from_str("empty input"),
            BridgeError::FieldInversionFailure => String::from_str("field inversion failure"),
            BridgeError::MismatchedParticipantSet => {
                String::from_str("mismatched participant set")
            },
        }
    }
}

} // verus!
