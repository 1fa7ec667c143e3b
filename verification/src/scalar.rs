//! Elements of the secp256k1 scalar field.
//!
//! A `Scalar` holds the canonical 32-byte big-endian encoding of a field
//! element; its mathematical view is the encoded natural number. All field
//! arithmetic is performed by the `k256` crate behind the trusted wrappers
//! at the bottom of this file, whose contracts state the arithmetic modulo
//! the group order over those views.

use vstd::prelude::*;
use k256::elliptic_curve::Field;
use k256::elliptic_curve::PrimeField;
use rand_core::OsRng;
use crate::bytes::be_nat;
use crate::bytes::be_bytes;
use crate::bytes::lemma_be_bytes_be_nat;
use crate::modring::add_mod;
use crate::modring::sub_mod;
use crate::modring::mul_mod;

verus! {

/// The order of the secp256k1 scalar group; all share arithmetic is modulo
/// this prime.
pub open spec fn group_order() -> nat {
    0xfffffffffffffffffffffffffffffffebaaedce6af48a03bbfd25e8cd0364141nat
}

/// A scalar, stored as its canonical fixed-width big-endian encoding.
#[derive(Clone, Debug, PartialEq, Eq)]
pub struct Scalar {
    b: Vec<u8>,
}

impl View for Scalar {
    type V = nat;

    closed spec fn view(&self) -> nat {
        be_nat(self.b@)
    }
}

impl DeepView for Scalar {
    type V = nat;

    open spec fn deep_view(&self) -> nat {
        self.view()
    }
}

impl Scalar {
    /// Canonical: exactly 32 bytes, value below the group order.
    pub closed spec fn wf(&self) -> bool {
        self.b@.len() == 32 && be_nat(self.b@) < group_order()
    }

    pub closed spec fn bytes(&self) -> Seq<u8> {
        self.b@
    }

    /// Read access to the canonical encoding, for the verified codec.
    pub(crate) fn byte_vec(&self) -> (r: &Vec<u8>)
        ensures
            r@ == self.bytes(),
    {
        &self.b
    }
}

/// The value sequence of a scalar sequence.
pub open spec fn scalar_vals(s: Seq<Scalar>) -> Seq<nat> {
    s.map_values(|x: Scalar| x@)
}

/// A canonical scalar's value lies below the group order.
pub broadcast proof fn lemma_scalar_wf_bound(s: Scalar)
    requires
        #[trigger] s.wf(),
    ensures
        s@ < group_order(),
{
}

/// A canonical scalar's bytes are the fixed-width encoding of its value.
pub proof fn lemma_scalar_bytes(s: &Scalar)
    requires
        s.wf(),
    ensures
        s.bytes() == be_bytes(s@, 32),
        s.bytes().len() == 32,
{
    lemma_be_bytes_be_nat(s.bytes());
}

/// Builds a scalar from 32 canonical bytes, in verified code.
pub(crate) fn scalar_from_be_bytes(b: Vec<u8>) -> (r: Option<Scalar>)
    requires
        b@.len() == 32,
    ensures
        r is Some <==> be_nat(b@) < group_order(),
        r matches Some(s) ==> s.wf() && s@ == be_nat(b@) && s.bytes() == b@,
{
    if k_is_canonical(&b) {
        let s = Scalar { b };
        Some(s)
    } else {
        None
    }
}

/// Relies on `k256::Scalar::from_repr`: a 32-byte string parses as a scalar
/// exactly when its big-endian value is below the group order.
#[verifier::external_body]
fn k_is_canonical(b: &Vec<u8>) -> (r: bool)
    requires
        b@.len() == 32,
    ensures
        r <==> be_nat(b@) < group_order(),
{
    let mut fb = k256::FieldBytes::default();
    fb.copy_from_slice(b);
    Option::<k256::Scalar>::from(k256::Scalar::from_repr(fb)).is_some()
}

/// Relies on `k256::Scalar::add`: addition modulo the group order, with the
/// result re-encoded in canonical fixed-width form by `Scalar::to_bytes`.
#[verifier::external_body]
pub(crate) fn k_add(a: &Scalar, b: &Scalar) -> (r: Scalar)
    requires
        a.wf(),
        b.wf(),
    ensures
        r.wf(),
        r@ == add_mod(a@, b@, group_order()),
{
    let mut fa = k256::FieldBytes::default();
    fa.copy_from_slice(&a.b);
    let sa = Option::<k256::Scalar>::from(k256::Scalar::from_repr(fa)).unwrap();
    let mut fb = k256::FieldBytes::default();
    fb.copy_from_slice(&b.b);
    let sb = Option::<k256::Scalar>::from(k256::Scalar::from_repr(fb)).unwrap();
    Scalar { b: (sa + sb).to_bytes().to_vec() }
}

/// Relies on `k256::Scalar::sub`: subtraction modulo the group order.
#[verifier::external_body]
pub(crate) fn k_sub(a: &Scalar, b: &Scalar) -> (r: Scalar)
    requires
        a.wf(),
        b.wf(),
    ensures
        r.wf(),
        r@ == sub_mod(a@, b@, group_order()),
{
    let mut fa = k256::FieldBytes::default();
    fa.copy_from_slice(&a.b);
    let sa = Option::<k256::Scalar>::from(k256::Scalar::from_repr(fa)).unwrap();
    let mut fb = k256::FieldBytes::default();
    fb.copy_from_slice(&b.b);
    let sb = Option::<k256::Scalar>::from(k256::Scalar::from_repr(fb)).unwrap();
    Scalar { b: (sa - sb).to_bytes().to_vec() }
}

/// Relies on `k256::Scalar::mul`: multiplication modulo the group order.
#[verifier::external_body]
pub(crate) fn k_mul(a: &Scalar, b: &Scalar) -> (r: Scalar)
    requires
        a.wf(),
        b.wf(),
    ensures
        r.wf(),
        r@ == mul_mod(a@, b@, group_order()),
{
    let mut fa = k256::FieldBytes::default();
    fa.copy_from_slice(&a.b);
    let sa = Option::<k256::Scalar>::from(k256::Scalar::from_repr(fa)).unwrap();
    let mut fb = k256::FieldBytes::default();
    fb.copy_from_slice(&b.b);
    let sb = Option::<k256::Scalar>::from(k256::Scalar::from_repr(fb)).unwrap();
    Scalar { b: (sa * sb).to_bytes().to_vec() }
}

/// Relies on `k256::Scalar::invert`: defined exactly for nonzero scalars and
/// returns the multiplicative inverse modulo the group order.
#[verifier::external_body]
pub(crate) fn k_invert(a: &Scalar) -> (r: Option<Scalar>)
    requires
        a.wf(),
    ensures
        r is Some <==> a@ != 0,
        r matches Some(s) ==> s.wf() && mul_mod(a@, s@, group_order()) == 1,
{
    let mut fa = k256::FieldBytes::default();
    fa.copy_from_slice(&a.b);
    let sa = Option::<k256::Scalar>::from(k256::Scalar::from_repr(fa)).unwrap();
    Option::<k256::Scalar>::from(sa.invert()).map(|s| Scalar { b: s.to_bytes().to_vec() })
}

/// Relies on `k256::Scalar::from::<u64>`: embeds an integer, which is already
/// below the group order, as a field element.
#[verifier::external_body]
pub(crate) fn k_from_u64(x: u64) -> (r: Scalar)
    ensures
        r.wf(),
        r@ == x as nat,
{
    Scalar { b: k256::Scalar::from(x).to_bytes().to_vec() }
}

/// Relies on `ff::Field::random` for `k256::Scalar`: rejection sampling with
/// the operating system's generator; nothing is assumed of the value beyond
/// canonicity.
#[verifier::external_body]
pub(crate) fn k_random() -> (r: Scalar)
    ensures
        r.wf(),
{
    Scalar { b: k256::Scalar::random(&mut OsRng).to_bytes().to_vec() }
}

/// Embeds a small integer as a scalar; public entry for building concrete
/// field elements.
pub fn scalar_from_u64(x: u64) -> (r: Scalar)
    ensures
        r.wf(),
        r@ == x as nat,
{
    k_from_u64(x)
}

/// Sum in the scalar field.
pub fn scalar_add(a: &Scalar, b: &Scalar) -> (r: Scalar)
    requires
        a.wf(),
        b.wf(),
    ensures
        r.wf(),
        r@ == add_mod(a@, b@, group_order()),
{
    k_add(a, b)
}

/// Product in the scalar field.
pub fn scalar_mul(a: &Scalar, b: &Scalar) -> (r: Scalar)
    requires
        a.wf(),
        b.wf(),
    ensures
        r.wf(),
        r@ == mul_mod(a@, b@, group_order()),
{
    k_mul(a, b)
}

} // verus!
