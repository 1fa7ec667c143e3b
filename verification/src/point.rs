//! Elliptic-curve points, abstracted by their discrete logarithm.
//!
//! Every point this library handles lies in the secp256k1 group, which is
//! cyclic of prime order: each point is `v·G` for exactly one `v` below the
//! group order. `point_log` names that exponent, and the trusted wrappers
//! below state over it what the group law guarantees: the generator map
//! turns scalar addition into point addition, so commitments can be added
//! and scaled without ever naming a coordinate.

use vstd::prelude::*;
use k256::elliptic_curve::PrimeField;
use k256::elliptic_curve::sec1::ToEncodedPoint;
use k256::elliptic_curve::sec1::FromEncodedPoint;
use crate::modring::add_mod;
use crate::modring::mul_mod;
use crate::scalar::group_order;
use crate::scalar::Scalar;

verus! {

broadcast use crate::scalar::lemma_scalar_wf_bound;

#[verifier::external_type_specification]
#[verifier::external_body]
pub struct ExProjectivePoint(k256::ProjectivePoint);

/// The discrete logarithm of a point: the unique exponent below the group
/// order whose power of the generator is the point.
pub uninterp spec fn point_log(p: k256::ProjectivePoint) -> nat;

/// The compressed SEC1 encoding of the point `v·G`.
pub uninterp spec fn point_encoding(v: nat) -> Seq<u8>;

/// Whether a byte string is a valid SEC1 point encoding.
pub uninterp spec fn is_point_encoding(b: Seq<u8>) -> bool;

/// Relies on `k256::ProjectivePoint::IDENTITY`: the group identity is `0·G`.
#[verifier::external_body]
pub(crate) fn point_identity() -> (r: k256::ProjectivePoint)
    ensures
        point_log(r) == 0,
{
    k256::ProjectivePoint::IDENTITY
}

/// Relies on `Mul<Scalar> for k256::ProjectivePoint` at the group
/// generator: the product is `s·G`, whose exponent is the scalar itself.
#[verifier::external_body]
pub(crate) fn mul_generator(s: &Scalar) -> (r: k256::ProjectivePoint)
    requires
        s.wf(),
    ensures
        point_log(r) == s@,
{
    let mut fb = k256::FieldBytes::default();
    fb.copy_from_slice(s.byte_vec());
    let sc = Option::<k256::Scalar>::from(k256::Scalar::from_repr(fb)).unwrap();
    k256::ProjectivePoint::GENERATOR * sc
}

/// Relies on `Add for k256::ProjectivePoint`: the group law, under which
/// exponents add modulo the group order.
#[verifier::external_body]
pub(crate) fn point_add(
    a: &k256::ProjectivePoint,
    b: &k256::ProjectivePoint,
) -> (r: k256::ProjectivePoint)
    ensures
        point_log(r) == add_mod(point_log(*a), point_log(*b), group_order()),
{
    a + b
}

/// Relies on `Mul<Scalar> for k256::ProjectivePoint`: scalar multiplication,
/// under which exponents multiply modulo the group order.
#[verifier::external_body]
pub(crate) fn point_mul(p: &k256::ProjectivePoint, s: &Scalar) -> (r: k256::ProjectivePoint)
    requires
        s.wf(),
    ensures
        point_log(r) == mul_mod(point_log(*p), s@, group_order()),
{
    let mut fb = k256::FieldBytes::default();
    fb.copy_from_slice(s.byte_vec());
    let sc = Option::<k256::Scalar>::from(k256::Scalar::from_repr(fb)).unwrap();
    p * &sc
}

/// Relies on `ToEncodedPoint for k256::ProjectivePoint`: the compressed SEC1
/// encoding, 33 bytes for any point but the identity, and itself a valid
/// encoding.
#[verifier::external_body]
pub(crate) fn point_to_bytes(p: &k256::ProjectivePoint) -> (r: Vec<u8>)
    ensures
        r@ == point_encoding(point_log(*p)),
        is_point_encoding(r@),
        point_log(*p) != 0 ==> r@.len() == 33,
{
    p.to_encoded_point(true).as_bytes().to_vec()
}

/// Relies on `FromEncodedPoint for k256::ProjectivePoint` (and the SEC1
/// parser): succeeds exactly on valid point encodings.
#[verifier::external_body]
pub(crate) fn point_from_bytes(b: &Vec<u8>) -> (r: Option<k256::ProjectivePoint>)
    ensures
        r is Some <==> is_point_encoding(b@),
{
    let encoded = match k256::EncodedPoint::from_bytes(b) {
        Ok(e) => e,
        Err(_) => {
            return None;
        },
    };
    Option::<k256::ProjectivePoint>::from(k256::ProjectivePoint::from_encoded_point(&encoded))
}

/// The commitment to a scalar: `s·G`, the public image of a secret share or
/// polynomial coefficient.
pub fn scalar_commitment(s: &Scalar) -> (r: k256::ProjectivePoint)
    requires
        s.wf(),
    ensures
        point_log(r) == s@,
{
    mul_generator(s)
}

} // verus!
