//! A conversion and reconstruction core for threshold-ECDSA key shares.
//!
//! Two multiparty-computation stacks speak different sharing dialects: one
//! keeps t-of-n Shamir shares, the other n-of-n additive shares. This crate
//! converts between the two, generates polynomial shares for resharing, and
//! reconstructs the public commitment material a quorum of shares defines,
//! all over the secp256k1 scalar field and stated as contracts over the
//! field's arithmetic.

pub mod bytes;
pub mod codec;
pub mod convert;
pub mod error;
pub mod hexstr;
pub mod math;
pub mod modring;
pub mod point;
pub mod reconstruct;
pub mod scalar;
pub mod share;

use vstd::prelude::*;

verus! {

/// Evaluation coordinate of a party: stored indices are 0-based, polynomial
/// points are 1-based. This is the single place where that conversion lives.
pub open spec fn spec_party_point(i: u16) -> int {
    i + 1
}

/// Turns a 0-based participant index into its 1-based polynomial evaluation
/// coordinate.
pub fn party_point(i: u16) -> (r: u64)
    ensures
        r == spec_party_point(i),
{
    i as u64 + 1
}

} // verus!
