//! Global parameter reconstruction.
//!
//! From a quorum of Shamir shares this module rebuilds the commitment
//! polynomial in the point domain — Lagrange basis-coefficient extraction by
//! synthetic division against each `(X - x_j)` — and evaluates it at every
//! party's coordinate, yielding the full VSS commitment and public-share
//! sets. The spec functions below mirror that algebra over the ghost
//! exponents of the points, so the contract pins every output string down.

use vstd::prelude::*;
use vstd::slice::slice_index_get;
use vstd::arithmetic::div_mod::lemma_small_mod;
use vstd::arithmetic::div_mod::lemma_add_mod_noop;
use vstd::arithmetic::div_mod::lemma_add_mod_noop_right;
use vstd::arithmetic::div_mod::lemma_mul_mod_noop_general;
use vstd::arithmetic::div_mod::lemma_mul_mod_noop_left;
use vstd::arithmetic::div_mod::lemma_mul_mod_noop_right;
use vstd::arithmetic::mul::lemma_mul_is_commutative;
use crate::modring::lemma_mod_add_cong;
use crate::codec::decode_scalar;
use crate::codec::encode_point;
use crate::codec::point_hex;
use crate::codec::scalar_str_err;
use crate::codec::scalar_str_ok;
use crate::codec::scalar_str_val;
use crate::error::BridgeError;
use crate::math::lagrange_weight;
use crate::math::poly_add;
use crate::math::poly_eval;
use crate::math::pow_mod;
use crate::modring::add_mod;
use crate::modring::sub_mod;
use crate::modring::mul_mod;
use crate::modring::inv_mod;
use crate::modring::lemma_inv_mod_unique;
use crate::modring::lemma_sub_mod_zero_iff;
use crate::point::point_add;
use crate::point::point_identity;
use crate::point::point_log;
use crate::point::point_mul;
use crate::point::mul_generator;
use crate::scalar::group_order;
use crate::scalar::scalar_vals;
use crate::scalar::Scalar;
use crate::scalar::k_from_u64;
use crate::scalar::k_sub;
use crate::scalar::k_mul;
use crate::scalar::k_invert;
use crate::share::PortableKeyShare;

verus! {

broadcast use crate::scalar::lemma_scalar_wf_bound;

/// The 1-based evaluation coordinates declared by a share set.
pub open spec fn share_coords(shares: Seq<PortableKeyShare>) -> Seq<nat> {
    Seq::new(shares.len(), |i: int| (shares[i].i + 1) as nat)
}

/// The secret-share values a share set carries.
pub open spec fn share_values(shares: Seq<PortableKeyShare>) -> Seq<nat> {
    Seq::new(shares.len(), |i: int| scalar_str_val(shares[i].x_hex@))
}

/// Two shares declare the same participant index.
pub open spec fn has_dup_index(shares: Seq<PortableKeyShare>) -> bool {
    exists|i: int, j: int|
        0 <= i < j < shares.len() && #[trigger] shares[i].i == #[trigger] shares[j].i
}

/// Product of the inverses of `xs[skip] - xs[j]` over the first `j`
/// coordinates, `skip` itself excepted: the reciprocal of share `skip`'s
/// Lagrange denominator.
pub open spec fn inv_denom_prefix(xs: Seq<nat>, skip: int, j: nat, m: nat) -> nat
    decreases j,
{
    if j == 0 {
        1nat % m
    } else {
        let prev = inv_denom_prefix(xs, skip, (j - 1) as nat, m);
        if j - 1 == skip {
            prev
        } else {
            mul_mod(prev, inv_mod(sub_mod(xs[skip], xs[j - 1], m), m), m)
        }
    }
}

pub open spec fn inv_denom(xs: Seq<nat>, skip: int, m: nat) -> nat {
    inv_denom_prefix(xs, skip, xs.len(), m)
}

/// Coefficient `k` of the Lagrange basis numerator of share `skip`, built
/// by synthetic division from the first `j` coordinates: the product of
/// `(X - xs[jj])` over `jj < j`, `jj != skip`, kept at fixed width.
pub open spec fn basis_at(xs: Seq<nat>, skip: int, j: nat, k: int, m: nat) -> nat
    decreases j,
{
    if j == 0 {
        if k == 0 {
            1nat % m
        } else {
            0nat
        }
    } else if j - 1 == skip {
        basis_at(xs, skip, (j - 1) as nat, k, m)
    } else {
        let xj = xs[j - 1];
        if k == 0 {
            sub_mod(0, mul_mod(xj, basis_at(xs, skip, (j - 1) as nat, 0, m), m), m)
        } else {
            sub_mod(
                basis_at(xs, skip, (j - 1) as nat, k - 1, m),
                mul_mod(xj, basis_at(xs, skip, (j - 1) as nat, k, m), m),
                m,
            )
        }
    }
}

/// The full Lagrange basis numerator of share `skip`.
pub open spec fn basis_poly(xs: Seq<nat>, skip: int, m: nat) -> Seq<nat> {
    Seq::new(xs.len(), |k: int| basis_at(xs, skip, xs.len(), k, m))
}

/// Exponent of reconstructed commitment coefficient `k` after the first `i`
/// shares have contributed: share `i` adds `y_i · basis_i[k] / denom_i`.
pub open spec fn interp_at(xs: Seq<nat>, ys: Seq<nat>, i: nat, k: int, m: nat) -> nat
    decreases i,
{
    if i == 0 {
        0nat
    } else {
        add_mod(
            interp_at(xs, ys, (i - 1) as nat, k, m),
            mul_mod(
                ys[i - 1],
                mul_mod(basis_at(xs, i - 1, xs.len(), k, m), inv_denom(xs, i - 1, m), m),
                m,
            ),
            m,
        )
    }
}

/// Exponents of the full reconstructed commitment coefficient set.
pub open spec fn interp_commitments(xs: Seq<nat>, ys: Seq<nat>, m: nat) -> Seq<nat> {
    Seq::new(xs.len(), |k: int| interp_at(xs, ys, xs.len(), k, m))
}

pub proof fn lemma_inv_denom_prefix_bound(xs: Seq<nat>, skip: int, j: nat, m: nat)
    requires
        m >= 1,
    ensures
        inv_denom_prefix(xs, skip, j, m) < m,
    decreases j,
{
    if j == 0 {
        vstd::arithmetic::div_mod::lemma_mod_bound(1, m as int);
    } else if j - 1 == skip {
        lemma_inv_denom_prefix_bound(xs, skip, (j - 1) as nat, m);
    } else {
        lemma_inv_denom_prefix_bound(xs, skip, (j - 1) as nat, m);
        vstd::arithmetic::div_mod::lemma_mod_bound(
            (inv_denom_prefix(xs, skip, (j - 1) as nat, m) * inv_mod(
                sub_mod(xs[skip], xs[j - 1], m),
                m,
            )) as int,
            m as int,
        );
    }
}

/// The reciprocal of share `i`'s Lagrange denominator, by one inversion per
/// factor; fails exactly when the coordinate set has a repeat at `i`.
fn inverse_denominator(coords: &Vec<Scalar>, i: usize) -> (r: Result<Scalar, BridgeError>)
    requires
        i < coords@.len(),
        forall|k: int| 0 <= k < coords@.len() ==> (#[trigger] coords@[k]).wf(),
    ensures
        r matches Ok(acc) ==> {
            &&& acc.wf()
            &&& acc@ == inv_denom(scalar_vals(coords@), i as int, group_order())
            &&& forall|j: int|
                0 <= j < coords@.len() && j != i as int ==> (#[trigger] coords@[j])@
                    != coords@[i as int]@
        },
        r matches Err(e) ==> e == BridgeError::FieldInversionFailure && (exists|j: int|
            0 <= j < coords@.len() && j != i as int && (#[trigger] coords@[j])@
                == coords@[i as int]@),
{
    let ghost xs = scalar_vals(coords@);
    let ghost m = group_order();
    let n = coords.len();
    let mut acc = k_from_u64(1);
    proof {
        assert(1nat % m == 1) by {
            lemma_small_mod(1, m);
        }
        assert(xs.len() == coords@.len());
    }
    for j in 0..n
        invariant
            n == coords@.len(),
            xs == scalar_vals(coords@),
            m == group_order(),
            i < n,
            forall|k: int| 0 <= k < coords@.len() ==> (#[trigger] coords@[k]).wf(),
            acc.wf(),
            acc@ == inv_denom_prefix(xs, i as int, j as nat, m),
            forall|j2: int|
                0 <= j2 < j as int && j2 != i as int ==> (#[trigger] coords@[j2])@
                    != coords@[i as int]@,
    {
        if j != i {
            let diff = k_sub(&coords[i], &coords[j]);
            proof {
                assert(xs[j as int] == coords@[j as int]@);
                assert(xs[i as int] == coords@[i as int]@);
                lemma_sub_mod_zero_iff(coords@[i as int]@, coords@[j as int]@, m);
            }
            match k_invert(&diff) {
                Some(v) => {
                    proof {
                        lemma_inv_mod_unique(diff@, v@, m);
                    }
                    acc = k_mul(&acc, &v);
                },
                None => {
                    proof {
                        assert(coords@[j as int]@ == coords@[i as int]@);
                    }
                    return Err(BridgeError::FieldInversionFailure);
                },
            }
        }
    }
    Ok(acc)
}

/// The Lagrange basis numerator of share `i`, by synthetic division.
fn basis_polynomial(coords: &Vec<Scalar>, i: usize) -> (r: Vec<Scalar>)
    requires
        i < coords@.len(),
        forall|k: int| 0 <= k < coords@.len() ==> (#[trigger] coords@[k]).wf(),
    ensures
        r@.len() == coords@.len(),
        forall|k: int|
            0 <= k < r@.len() ==> (#[trigger] r@[k]).wf() && r@[k]@ == basis_at(
                scalar_vals(coords@),
                i as int,
                coords@.len() as nat,
                k,
                group_order(),
            ),
{
    let ghost xs = scalar_vals(coords@);
    let ghost m = group_order();
    let n = coords.len();
    let mut poly: Vec<Scalar> = Vec::new();
    poly.push(k_from_u64(1));
    for _z in 1..n
        invariant
            poly@.len() == _z,
            1 <= _z <= n,
            poly@[0]@ == 1,
            forall|k: int| 0 <= k < poly@.len() ==> (#[trigger] poly@[k]).wf(),
            forall|k: int| 1 <= k < poly@.len() ==> (#[trigger] poly@[k])@ == 0,
    {
        poly.push(k_from_u64(0));
    }
    proof {
        assert(1nat % m == 1) by {
            lemma_small_mod(1, m);
        }
        assert forall|k: int| 0 <= k < poly@.len() implies (#[trigger] poly@[k])@ == basis_at(
            xs,
            i as int,
            0,
            k,
            m,
        ) by {
            if k > 0 {
                assert(poly@[k]@ == 0);
            }
        }
    }
    for j in 0..n
        invariant
            n == coords@.len(),
            xs == scalar_vals(coords@),
            m == group_order(),
            i < n,
            forall|k: int| 0 <= k < coords@.len() ==> (#[trigger] coords@[k]).wf(),
            poly@.len() == n,
            forall|k: int|
                0 <= k < poly@.len() ==> (#[trigger] poly@[k]).wf() && poly@[k]@ == basis_at(
                    xs,
                    i as int,
                    j as nat,
                    k,
                    m,
                ),
    {
        if j != i {
            let mut next: Vec<Scalar> = Vec::new();
            let first = k_sub(&k_from_u64(0), &k_mul(&coords[j], &poly[0]));
            next.push(first);
            proof {
                assert(xs[j as int] == coords@[j as int]@);
                assert(next@[0]@ == basis_at(xs, i as int, (j + 1) as nat, 0, m));
            }
            for k in 1..n
                invariant
                    n == coords@.len(),
                    xs == scalar_vals(coords@),
                    m == group_order(),
                    i < n,
                    j < n,
                    j != i,
                    forall|k2: int| 0 <= k2 < coords@.len() ==> (#[trigger] coords@[k2]).wf(),
                    poly@.len() == n,
                    forall|k2: int|
                        0 <= k2 < poly@.len() ==> (#[trigger] poly@[k2]).wf() && poly@[k2]@
                            == basis_at(xs, i as int, j as nat, k2, m),
                    next@.len() == k,
                    1 <= k <= n,
                    forall|k2: int|
                        0 <= k2 < next@.len() ==> (#[trigger] next@[k2]).wf() && next@[k2]@
                            == basis_at(xs, i as int, (j + 1) as nat, k2, m),
            {
                let v = k_sub(&poly[k - 1], &k_mul(&coords[j], &poly[k]));
                next.push(v);
                proof {
                    assert(xs[j as int] == coords@[j as int]@);
                    assert(next@[k as int]@ == basis_at(xs, i as int, (j + 1) as nat, k as int, m));
                }
            }
            poly = next;
        } else {
            proof {
                assert forall|k: int| 0 <= k < poly@.len() implies (#[trigger] poly@[k])@
                    == basis_at(xs, i as int, (j + 1) as nat, k, m) by {
                    assert(basis_at(xs, i as int, (j + 1) as nat, k, m) == basis_at(
                        xs,
                        i as int,
                        j as nat,
                        k,
                        m,
                    ));
                }
            }
        }
    }
    poly
}

/// Evaluates a commitment polynomial at a party coordinate: the public
/// share `Σ_k C_k · x^k` of that party.
pub fn evaluate_commitments(commitments: &Vec<k256::ProjectivePoint>, x: u64) -> (r:
    k256::ProjectivePoint)
    ensures
        point_log(r) == poly_eval(
            Seq::new(commitments@.len(), |k: int| point_log(commitments@[k])),
            x as nat,
            group_order(),
        ),
{
    let ghost m = group_order();
    let ghost cl = Seq::new(commitments@.len(), |k: int| point_log(commitments@[k]));
    let n = commitments.len();
    let mut acc = point_identity();
    let xs = k_from_u64(x);
    let mut xp = k_from_u64(1);
    proof {
        assert(cl.take(0) =~= Seq::<nat>::empty());
        assert(1nat % m == 1) by {
            lemma_small_mod(1, m);
        }
    }
    for k in 0..n
        invariant
            n == commitments@.len(),
            m == group_order(),
            cl == Seq::new(commitments@.len(), |k2: int| point_log(commitments@[k2])),
            xs.wf(),
            xs@ == x as nat,
            xp.wf(),
            xp@ == pow_mod(x as nat, k as nat, m),
            point_log(acc) == poly_eval(cl.take(k as int), x as nat, m),
    {
        let w = k_mul(&xp, &k_from_u64(1));
        let term = point_mul(&commitments[k], &xp);
        let acc2 = point_add(&acc, &term);
        proof {
            let tk = cl.take(k + 1);
            assert(tk.drop_last() =~= cl.take(k as int));
            assert(tk.last() == cl[k as int]);
            assert(cl[k as int] == point_log(commitments@[k as int]));
            lemma_mul_is_commutative(point_log(commitments@[k as int]) as int, xp@ as int);
            lemma_add_mod_noop_right(
                poly_eval(cl.take(k as int), x as nat, m) as int,
                (cl[k as int] * pow_mod(x as nat, k as nat, m)) as int,
                m as int,
            );
            assert(point_log(acc2) == poly_eval(tk, x as nat, m));
        }
        let xp2 = k_mul(&xp, &xs);
        proof {
            lemma_mul_is_commutative(xp@ as int, xs@ as int);
            assert(xp2@ == pow_mod(x as nat, (k + 1) as nat, m));
        }
        acc = acc2;
        xp = xp2;
    }
    proof {
        assert(cl.take(n as int) =~= cl);
    }
    acc
}


/// Reconstructs the global parameters a quorum of Shamir shares defines: the
/// VSS commitment set (the commitment polynomial's coefficients, in the
/// point domain) and every party's public share, both as compressed-point
/// hex.
///
/// The first share's `t` field declares the threshold; fewer shares fail
/// with `InsufficientShares`, none at all with `EmptyInput`, a repeated
/// participant index with `FieldInversionFailure` (its Lagrange denominator
/// is the additive identity), and a share whose scalar does not parse with
/// that scalar's codec error. Commitment `k` has exponent
/// `Σ_i y_i · basis_i[k] / denom_i` and party `j`'s public share is the
/// commitment polynomial evaluated at `j + 1`.
#[verifier::rlimit(100)]
pub fn reconstruct_global_params(refreshed_data: &[PortableKeyShare]) -> (r: Result<
    (Vec<String>, Vec<String>),
    BridgeError,
>)
    requires
        refreshed_data@.len() <= u16::MAX,
    ensures
        ({
            let shares = refreshed_data@;
            let n = shares.len() as int;
            let m = group_order();
            let cs = interp_commitments(share_coords(shares), share_values(shares), m);
            let all_ok = forall|j: int| 0 <= j < n ==> scalar_str_ok(#[trigger] shares[j].x_hex@);
            &&& (!all_ok ==> (exists|j: int|
                {
                    &&& 0 <= j < n
                    &&& !scalar_str_ok(#[trigger] shares[j].x_hex@)
                    &&& (forall|j2: int| 0 <= j2 < j ==> scalar_str_ok(#[trigger] shares[j2].x_hex@))
                    &&& r == Err::<(Vec<String>, Vec<String>), BridgeError>(
                        scalar_str_err(shares[j].x_hex@),
                    )
                }))
            &&& (all_ok && n == 0 ==> r == Err::<(Vec<String>, Vec<String>), BridgeError>(
                BridgeError::EmptyInput,
            ))
            &&& (all_ok && 0 < n < shares[0].t as int ==> r == Err::<
                (Vec<String>, Vec<String>),
                BridgeError,
            >(
                BridgeError::InsufficientShares {
                    required: shares[0].t,
                    actual: shares.len() as u16,
                },
            ))
            &&& (all_ok && n > 0 && n >= shares[0].t as int && has_dup_index(shares) ==> r
                == Err::<(Vec<String>, Vec<String>), BridgeError>(
                BridgeError::FieldInversionFailure,
            ))
            &&& (all_ok && n > 0 && n >= shares[0].t as int && !has_dup_index(shares) ==> (
            r matches Ok(out) && {
                &&& out.0@.len() == n
                &&& (forall|k: int| 0 <= k < n ==> (#[trigger] out.0@[k])@ == point_hex(cs[k]))
                &&& out.1@.len() == shares[0].n as int
                &&& (forall|j: int|
                    0 <= j < shares[0].n as int ==> (#[trigger] out.1@[j])@ == point_hex(
                        poly_eval(cs, (j + 1) as nat, m),
                    ))
            }))
        }),
{
    let ghost shares = refreshed_data@;
    let ghost m = group_order();
    let ghost xs = share_coords(shares);
    let ghost ys = share_values(shares);
    let n = refreshed_data.len();

    // 1. Decode every share into its coordinate and its commitment point.
    let mut coords: Vec<Scalar> = Vec::new();
    let mut ypoints: Vec<k256::ProjectivePoint> = Vec::new();
    for idx in 0..n
        invariant
            n == shares.len(),
            shares == refreshed_data@,
            m == group_order(),
            xs == share_coords(shares),
            ys == share_values(shares),
            coords@.len() == idx,
            ypoints@.len() == idx,
            forall|k: int| 0 <= k < idx as int ==> scalar_str_ok(#[trigger] shares[k].x_hex@),
            forall|k: int|
                0 <= k < idx as int ==> (#[trigger] coords@[k]).wf() && coords@[k]@ == xs[k],
            forall|k: int| 0 <= k < idx as int ==> point_log(#[trigger] ypoints@[k]) == ys[k],
    {
        let rec = slice_index_get(refreshed_data, idx);
        let x = match decode_scalar(rec.x_hex.as_str()) {
            Ok(s) => s,
            Err(e) => {
                proof {
                    assert(!scalar_str_ok(shares[idx as int].x_hex@));
                    assert(e == scalar_str_err(shares[idx as int].x_hex@));
                }
                return Err(e);
            },
        };
        coords.push(k_from_u64(crate::party_point(rec.i)));
        ypoints.push(mul_generator(&x));
        proof {
            assert(coords@[idx as int]@ == xs[idx as int]);
            assert(point_log(ypoints@[idx as int]) == ys[idx as int]);
        }
    }

    // 2. A quorum must be present.
    if n == 0 {
        return Err(BridgeError::EmptyInput);
    }
    let required = slice_index_get(refreshed_data, 0).t;
    if n < required as usize {
        return Err(
            BridgeError::InsufficientShares { required, actual: n as u16 },
        );
    }

    // 3. Lagrange basis-coefficient extraction, summed in the point domain.
    let mut coeffs: Vec<k256::ProjectivePoint> = Vec::new();
    for k in 0..n
        invariant
            coeffs@.len() == k,
            forall|k2: int| 0 <= k2 < k as int ==> point_log(#[trigger] coeffs@[k2]) == 0,
    {
        coeffs.push(point_identity());
    }
    for i in 0..n
        invariant
            n == shares.len(),
            n >= 1,
            n as int >= shares[0].t as int,
            forall|k: int| 0 <= k < n as int ==> scalar_str_ok(#[trigger] shares[k].x_hex@),
            shares == refreshed_data@,
            m == group_order(),
            xs == share_coords(shares),
            ys == share_values(shares),
            coords@.len() == n,
            ypoints@.len() == n,
            forall|k: int| 0 <= k < n as int ==> (#[trigger] coords@[k]).wf() && coords@[k]@ == xs[k],
            forall|k: int| 0 <= k < n as int ==> point_log(#[trigger] ypoints@[k]) == ys[k],
            coeffs@.len() == n,
            forall|k: int|
                0 <= k < n as int ==> point_log(#[trigger] coeffs@[k]) == interp_at(
                    xs,
                    ys,
                    i as nat,
                    k,
                    m,
                ),
            forall|i2: int, j: int|
                0 <= i2 < i as int && 0 <= j < n as int && j != i2 ==> (#[trigger] coords@[i2])@
                    != (#[trigger] coords@[j])@,
    {
        let invd = match inverse_denominator(&coords, i) {
            Ok(v) => v,
            Err(_e) => {
                proof {
                    let j = choose|j: int|
                        0 <= j < coords@.len() && j != i as int && (#[trigger] coords@[j])@
                            == coords@[i as int]@;
                    assert(xs[j] == xs[i as int]);
                    assert(shares[j].i == shares[i as int].i);
                    if j < i as int {
                        assert(shares[j].i == shares[i as int].i);
                    } else {
                        assert(shares[i as int].i == shares[j].i);
                    }
                    assert(has_dup_index(shares));
                }
                return Err(BridgeError::FieldInversionFailure);
            },
        };
        let basis = basis_polynomial(&coords, i);
        proof {
            assert(scalar_vals(coords@) =~= xs);
        }
        let mut next: Vec<k256::ProjectivePoint> = Vec::new();
        for k in 0..n
            invariant
                n == shares.len(),
                m == group_order(),
                xs == share_coords(shares),
                ys == share_values(shares),
                i < n,
                coords@.len() == n,
                ypoints@.len() == n,
                forall|k2: int|
                    0 <= k2 < n as int ==> (#[trigger] coords@[k2]).wf() && coords@[k2]@ == xs[k2],
                forall|k2: int| 0 <= k2 < n as int ==> point_log(#[trigger] ypoints@[k2]) == ys[k2],
                coeffs@.len() == n,
                forall|k2: int|
                    0 <= k2 < n as int ==> point_log(#[trigger] coeffs@[k2]) == interp_at(
                        xs,
                        ys,
                        i as nat,
                        k2,
                        m,
                    ),
                basis@.len() == n,
                forall|k2: int|
                    0 <= k2 < n as int ==> (#[trigger] basis@[k2]).wf() && basis@[k2]@ == basis_at(
                        xs,
                        i as int,
                        n as nat,
                        k2,
                        m,
                    ),
                invd.wf(),
                invd@ == inv_denom(xs, i as int, m),
                next@.len() == k,
                forall|k2: int|
                    0 <= k2 < k as int ==> point_log(#[trigger] next@[k2]) == interp_at(
                        xs,
                        ys,
                        (i + 1) as nat,
                        k2,
                        m,
                    ),
        {
            let w = k_mul(&basis[k], &invd);
            let term = point_mul(&ypoints[i], &w);
            next.push(point_add(&coeffs[k], &term));
            proof {
                assert(xs.len() == n);
                assert(point_log(next@[k as int]) == interp_at(xs, ys, (i + 1) as nat, k as int, m));
            }
        }
        coeffs = next;
    }

    // 4. Encode the commitment set.
    let ghost cs = interp_commitments(xs, ys, m);
    proof {
        assert(xs.len() == n);
        assert forall|k: int| 0 <= k < n as int implies point_log(#[trigger] coeffs@[k]) == cs[k] by {
        }
    }
    let mut commitments: Vec<String> = Vec::new();
    for k in 0..n
        invariant
            n == shares.len(),
            m == group_order(),
            cs == interp_commitments(xs, ys, m),
            coeffs@.len() == n,
            forall|k2: int| 0 <= k2 < n as int ==> point_log(#[trigger] coeffs@[k2]) == cs[k2],
            commitments@.len() == k,
            forall|k2: int|
                0 <= k2 < k as int ==> (#[trigger] commitments@[k2])@ == point_hex(cs[k2]),
    {
        commitments.push(encode_point(&coeffs[k]));
    }

    // 5. Evaluate the commitment polynomial at every party's coordinate.
    let n_total = slice_index_get(refreshed_data, 0).n;
    let mut publics: Vec<String> = Vec::new();
    for tgt in 0..n_total
        invariant
            n == shares.len(),
            m == group_order(),
            cs == interp_commitments(xs, ys, m),
            xs == share_coords(shares),
            cs.len() == n,
            coeffs@.len() == n,
            forall|k2: int| 0 <= k2 < n as int ==> point_log(#[trigger] coeffs@[k2]) == cs[k2],
            publics@.len() == tgt,
            forall|j: int|
                0 <= j < tgt as int ==> (#[trigger] publics@[j])@ == point_hex(
                    poly_eval(cs, (j + 1) as nat, m),
                ),
    {
        let pt = evaluate_commitments(&coeffs, crate::party_point(tgt));
        proof {
            assert(Seq::new(coeffs@.len(), |k: int| point_log(coeffs@[k])) =~= cs);
        }
        publics.push(encode_point(&pt));
    }
    proof {
        assert forall|i2: int, j: int|
            0 <= i2 < j < shares.len() implies #[trigger] shares[i2].i != #[trigger] shares[j].i by {
            assert(coords@[i2]@ != coords@[j]@);
            assert(xs[i2] != xs[j]);
        }
        assert(!has_dup_index(shares));
    }
    Ok((commitments, publics))
}

/// A reconstruction check on a small prime field, end to end in the model:
/// sharing the secret 7 along `f(x) = 7 + 2x + 5x^2` over the integers
/// modulo 17 puts the values 14, 14, 7, 10, 6 at the points 1..5, and
/// interpolating the shares held at the points {1, 3, 5} recovers the
/// polynomial's constant term 7.
pub proof fn lemma_small_field_reconstruction()
    ensures
        poly_eval(seq![7nat, 2nat, 5nat], 1, 17) == 14,
        poly_eval(seq![7nat, 2nat, 5nat], 2, 17) == 14,
        poly_eval(seq![7nat, 2nat, 5nat], 3, 17) == 7,
        poly_eval(seq![7nat, 2nat, 5nat], 4, 17) == 10,
        poly_eval(seq![7nat, 2nat, 5nat], 5, 17) == 6,
        interp_at(seq![1nat, 3nat, 5nat], seq![14nat, 7nat, 6nat], 3, 0, 17) == 7,
{
    let c = seq![7nat, 2nat, 5nat];
    assert(c.drop_last() =~= seq![7nat, 2nat]);
    assert(seq![7nat, 2nat].drop_last() =~= seq![7nat]);
    assert(seq![7nat].drop_last() =~= Seq::<nat>::empty());

    // the polynomial's values at the five points
    assert(pow_mod(1, 0, 17) == 1) by {
        assert(1nat % 17 == 1);
    }
    assert(pow_mod(1, 1, 17) == 1);
    assert(pow_mod(1, 2, 17) == 1);
    assert(poly_eval(Seq::<nat>::empty(), 1, 17) == 0);
    assert(poly_eval(seq![7nat], 1, 17) == 7);
    assert(poly_eval(seq![7nat, 2nat], 1, 17) == 9);
    assert(poly_eval(c, 1, 17) == 14);

    assert(pow_mod(2, 0, 17) == 1);
    assert(pow_mod(2, 1, 17) == 2);
    assert(pow_mod(2, 2, 17) == 4);
    assert(poly_eval(Seq::<nat>::empty(), 2, 17) == 0);
    assert(poly_eval(seq![7nat], 2, 17) == 7);
    assert(poly_eval(seq![7nat, 2nat], 2, 17) == 11);
    assert(poly_eval(c, 2, 17) == 14);

    assert(pow_mod(3, 0, 17) == 1);
    assert(pow_mod(3, 1, 17) == 3);
    assert(pow_mod(3, 2, 17) == 9);
    assert(poly_eval(Seq::<nat>::empty(), 3, 17) == 0);
    assert(poly_eval(seq![7nat], 3, 17) == 7);
    assert(poly_eval(seq![7nat, 2nat], 3, 17) == 13);
    assert(poly_eval(c, 3, 17) == 7);

    assert(pow_mod(4, 0, 17) == 1);
    assert(pow_mod(4, 1, 17) == 4);
    assert(pow_mod(4, 2, 17) == 16);
    assert(poly_eval(Seq::<nat>::empty(), 4, 17) == 0);
    assert(poly_eval(seq![7nat], 4, 17) == 7);
    assert(poly_eval(seq![7nat, 2nat], 4, 17) == 15);
    assert(poly_eval(c, 4, 17) == 10);

    assert(pow_mod(5, 0, 17) == 1);
    assert(pow_mod(5, 1, 17) == 5);
    assert(pow_mod(5, 2, 17) == 8);
    assert(poly_eval(Seq::<nat>::empty(), 5, 17) == 0);
    assert(poly_eval(seq![7nat], 5, 17) == 7);
    assert(poly_eval(seq![7nat, 2nat], 5, 17) == 0);
    assert(poly_eval(c, 5, 17) == 6);

    // interpolation at the quorum {1, 3, 5}
    let xs = seq![1nat, 3nat, 5nat];
    let ys = seq![14nat, 7nat, 6nat];

    // the inverses that the Lagrange denominators need
    assert(sub_mod(1, 3, 17) == 15);
    assert(sub_mod(1, 5, 17) == 13);
    assert(sub_mod(3, 1, 17) == 2);
    assert(sub_mod(3, 5, 17) == 15);
    assert(sub_mod(5, 1, 17) == 4);
    assert(sub_mod(5, 3, 17) == 2);
    lemma_inv_mod_unique(15, 8, 17);
    lemma_inv_mod_unique(13, 4, 17);
    lemma_inv_mod_unique(2, 9, 17);
    lemma_inv_mod_unique(4, 13, 17);

    // reciprocal denominators, share by share
    assert(inv_denom_prefix(xs, 0, 0, 17) == 1);
    assert(inv_denom_prefix(xs, 0, 1, 17) == 1);
    assert(inv_denom_prefix(xs, 0, 2, 17) == 8);
    assert(inv_denom_prefix(xs, 0, 3, 17) == 15);
    assert(inv_denom(xs, 0, 17) == 15);

    assert(inv_denom_prefix(xs, 1, 0, 17) == 1);
    assert(inv_denom_prefix(xs, 1, 1, 17) == 9);
    assert(inv_denom_prefix(xs, 1, 2, 17) == 9);
    assert(inv_denom_prefix(xs, 1, 3, 17) == 4);
    assert(inv_denom(xs, 1, 17) == 4);

    assert(inv_denom_prefix(xs, 2, 0, 17) == 1);
    assert(inv_denom_prefix(xs, 2, 1, 17) == 13);
    assert(inv_denom_prefix(xs, 2, 2, 17) == 15);
    assert(inv_denom_prefix(xs, 2, 3, 17) == 15);
    assert(inv_denom(xs, 2, 17) == 15);

    // constant coefficients of the basis numerators
    assert(basis_at(xs, 0, 0, 0, 17) == 1);
    assert(basis_at(xs, 0, 1, 0, 17) == 1);
    assert(basis_at(xs, 0, 2, 0, 17) == 14);
    assert(basis_at(xs, 0, 3, 0, 17) == 15);

    assert(basis_at(xs, 1, 0, 0, 17) == 1);
    assert(basis_at(xs, 1, 1, 0, 17) == 16);
    assert(basis_at(xs, 1, 2, 0, 17) == 16);
    assert(basis_at(xs, 1, 3, 0, 17) == 5);

    assert(basis_at(xs, 2, 0, 0, 17) == 1);
    assert(basis_at(xs, 2, 1, 0, 17) == 16);
    assert(basis_at(xs, 2, 2, 0, 17) == 3);
    assert(basis_at(xs, 2, 3, 0, 17) == 3);

    // the accumulated constant term
    assert(interp_at(xs, ys, 0, 0, 17) == 0);
    assert(interp_at(xs, ys, 1, 0, 17) == 5);
    assert(interp_at(xs, ys, 2, 0, 17) == 9);
    assert(interp_at(xs, ys, 3, 0, 17) == 7);
}

/// Reconstruction from a single share hands the share back: with one point
/// the basis numerator and the denominator are both one, so the only
/// commitment exponent is the share value itself.
pub proof fn lemma_single_share_reconstruction(xs: Seq<nat>, ys: Seq<nat>, m: nat)
    requires
        xs.len() == 1,
        ys.len() == 1,
        ys[0] < m,
        m >= 2,
    ensures
        interp_commitments(xs, ys, m).len() == 1,
        interp_commitments(xs, ys, m)[0] == ys[0],
{
    lemma_small_mod(1, m);
    lemma_small_mod(ys[0], m);
    lemma_small_mod(0, m);
    assert(basis_at(xs, 0, 0, 0, m) == 1);
    assert(basis_at(xs, 0, 1, 0, m) == 1);
    assert(inv_denom_prefix(xs, 0, 0, m) == 1);
    assert(inv_denom_prefix(xs, 0, 1, m) == 1);
    assert(inv_denom(xs, 0, m) == 1);
    assert(mul_mod(1, 1, m) == 1);
    assert(mul_mod(ys[0], 1, m) == ys[0]);
    assert(interp_at(xs, ys, 0, 0, m) == 0);
    assert(interp_at(xs, ys, 1, 0, m) == add_mod(0, ys[0], m));
    assert(add_mod(0, ys[0], m) == ys[0]);
}

/// The width-indexed coefficient view of a basis numerator after `j` steps.
pub open spec fn basis_seq(xs: Seq<nat>, skip: int, j: nat, m: nat) -> Seq<nat> {
    Seq::new(xs.len(), |k: int| basis_at(xs, skip, j, k, m))
}

/// Basis coefficients are reduced field elements.
pub proof fn lemma_basis_at_bound(xs: Seq<nat>, skip: int, j: nat, k: int, m: nat)
    requires
        m >= 1,
    ensures
        basis_at(xs, skip, j, k, m) < m,
    decreases j,
{
    if j == 0 {
        if k == 0 {
            vstd::arithmetic::div_mod::lemma_mod_bound(1, m as int);
        }
    } else if j - 1 == skip {
        lemma_basis_at_bound(xs, skip, (j - 1) as nat, k, m);
    } else {
        let xj = xs[j - 1];
        if k == 0 {
            vstd::arithmetic::div_mod::lemma_mod_bound(
                ((0 + m) - mul_mod(xj, basis_at(xs, skip, (j - 1) as nat, 0, m), m)) as int,
                m as int,
            );
        } else {
            vstd::arithmetic::div_mod::lemma_mod_bound(
                ((basis_at(xs, skip, (j - 1) as nat, k - 1, m) + m) - mul_mod(
                    xj,
                    basis_at(xs, skip, (j - 1) as nat, k, m),
                    m,
                )) as int,
                m as int,
            );
        }
    }
}

/// Division steps raise the degree one at a time, so every coefficient above
/// the number of multiplications taken is still zero.
pub proof fn lemma_basis_top_zero(xs: Seq<nat>, skip: int, j: nat, k: int, m: nat)
    requires
        m >= 2,
        skip >= 0,
        if skip < j {
            k >= j
        } else {
            k > j
        },
    ensures
        basis_at(xs, skip, j, k, m) == 0,
    decreases j,
{
    if j == 0 {
    } else if j - 1 == skip {
        lemma_basis_top_zero(xs, skip, (j - 1) as nat, k, m);
    } else {
        lemma_basis_top_zero(xs, skip, (j - 1) as nat, k - 1, m);
        lemma_basis_top_zero(xs, skip, (j - 1) as nat, k, m);
        let xj = xs[j - 1];
        assert(mul_mod(xj, 0, m) == 0) by {
            lemma_small_mod(0, m);
        }
        assert(sub_mod(0, 0, m) == 0) by {
            vstd::arithmetic::div_mod::lemma_mod_self_0(m as int);
        }
    }
}

/// Once a later coordinate has been divided out, the basis numerator of any
/// other share vanishes at that coordinate: the helper walks the remaining
/// steps, and the truncated top term stays zero throughout.
proof fn lemma_basis_vanishes_from(xs: Seq<nat>, skip: int, j0: int, j: nat, m: nat)
    requires
        m >= 2,
        0 <= skip < xs.len(),
        0 <= j0 < xs.len(),
        j0 != skip,
        j0 < j <= xs.len(),
        forall|l: int| 0 <= l < xs.len() ==> #[trigger] xs[l] < m,
    ensures
        poly_eval(basis_seq(xs, skip, j, m), xs[j0], m) == 0,
    decreases j,
{
    let n = xs.len() as int;
    let x = xs[j0];
    let p = basis_seq(xs, skip, (j - 1) as nat, m);
    assert forall|k: int| 0 <= k < p.len() implies #[trigger] p[k] < m by {
        lemma_basis_at_bound(xs, skip, (j - 1) as nat, k, m);
    }
    // the coefficient the fixed width would cut off is still zero
    assert(p.last() == basis_at(xs, skip, (j - 1) as nat, n - 1, m));
    if j - 1 != skip {
        assert(p.last() == 0) by {
            if skip < j - 1 {
                lemma_basis_top_zero(xs, skip, (j - 1) as nat, n - 1, m);
            } else {
                assert(skip > j - 1);
                assert(j - 1 < n - 1);
                lemma_basis_top_zero(xs, skip, (j - 1) as nat, n - 1, m);
            }
        }
        assert(basis_seq(xs, skip, j, m) =~= crate::math::poly_mul_linear(p, xs[j - 1], m));
        crate::math::lemma_poly_eval_mul_linear(p, xs[j - 1], x, m);
        let ev = poly_eval(basis_seq(xs, skip, j, m), x, m);
        assert(mul_mod(p.last(), pow_mod(x, p.len(), m), m) == 0) by {
            lemma_small_mod(0, m);
        }
        assert(add_mod(ev, 0, m) == mul_mod(sub_mod(x, xs[j - 1], m), poly_eval(p, x, m), m));
        vstd::arithmetic::div_mod::lemma_mod_bound(
            (sub_mod(x, xs[j - 1], m) * poly_eval(p, x, m)) as int,
            m as int,
        );
        assert(basis_seq(xs, skip, j, m).len() >= 1);
        vstd::arithmetic::div_mod::lemma_mod_bound(
            (poly_eval(basis_seq(xs, skip, j, m).drop_last(), x, m) + basis_seq(
                xs,
                skip,
                j,
                m,
            ).last() * pow_mod(x, (basis_seq(xs, skip, j, m).len() - 1) as nat, m)) as int,
            m as int,
        );
        assert(ev < m);
        lemma_small_mod(ev, m);
        if j - 1 == j0 {
            // dividing out the evaluation coordinate itself: the factor is zero
            lemma_sub_mod_zero_iff(x, xs[j - 1], m);
            assert(sub_mod(x, xs[j - 1], m) == 0);
            assert(mul_mod(0, poly_eval(p, x, m), m) == 0) by {
                lemma_small_mod(0, m);
            }
        } else {
            // the earlier steps already made the evaluation zero
            lemma_basis_vanishes_from(xs, skip, j0, (j - 1) as nat, m);
            assert(poly_eval(p, x, m) == 0);
            assert(mul_mod(sub_mod(x, xs[j - 1], m), 0, m) == 0) by {
                lemma_small_mod(0, m);
            }
        }
    } else {
        assert(j - 1 == skip);
        assert(j0 < j - 1);
        lemma_basis_vanishes_from(xs, skip, j0, (j - 1) as nat, m);
        assert(basis_seq(xs, skip, j, m) =~= basis_seq(xs, skip, (j - 1) as nat, m));
    }
}

/// The Lagrange basis numerator of one share vanishes at every other
/// share's coordinate: it is the product of `(X - x_l)` over the other
/// coordinates, and one factor is zero there. This is the property that
/// makes the reconstructed commitments interpolate the contributed shares.
pub proof fn lemma_basis_vanishes_at_other_points(xs: Seq<nat>, skip: int, j0: int, m: nat)
    requires
        m >= 2,
        0 <= skip < xs.len(),
        0 <= j0 < xs.len(),
        j0 != skip,
        forall|l: int| 0 <= l < xs.len() ==> #[trigger] xs[l] < m,
    ensures
        poly_eval(basis_poly(xs, skip, m), xs[j0], m) == 0,
{
    lemma_basis_vanishes_from(xs, skip, j0, xs.len(), m);
    assert(basis_poly(xs, skip, m) =~= basis_seq(xs, skip, xs.len(), m));
}

/// The Lagrange denominator of share `skip` over the first `j` coordinates:
/// the product of `xs[skip] - xs[jj]` over `jj != skip`.
pub open spec fn denom_prefix(xs: Seq<nat>, skip: int, j: nat, m: nat) -> nat
    decreases j,
{
    if j == 0 {
        1nat % m
    } else {
        let prev = denom_prefix(xs, skip, (j - 1) as nat, m);
        if j - 1 == skip {
            prev
        } else {
            mul_mod(prev, sub_mod(xs[skip], xs[j - 1], m), m)
        }
    }
}

/// A polynomial whose coefficients above the constant are all zero
/// evaluates to its reduced constant term.
proof fn lemma_poly_eval_constant_padded(p: Seq<nat>, x: nat, m: nat)
    requires
        m >= 2,
        p.len() >= 1,
        p[0] < m,
        forall|k: int| 1 <= k < p.len() ==> #[trigger] p[k] == 0,
    ensures
        poly_eval(p, x, m) == p[0],
    decreases p.len(),
{
    if p.len() == 1 {
        assert(p.drop_last() =~= Seq::<nat>::empty());
        assert(poly_eval(Seq::<nat>::empty(), x, m) == 0);
        assert(1nat % m == 1) by {
            lemma_small_mod(1, m);
        }
        assert(pow_mod(x, 0, m) == 1);
        assert(p.last() == p[0]);
        assert(poly_eval(p, x, m) == (0 + p[0] * 1nat) % m);
        lemma_small_mod(p[0], m);
    } else {
        assert(p.drop_last()[0] == p[0]);
        lemma_poly_eval_constant_padded(p.drop_last(), x, m);
        assert(p.last() == 0);
        assert(poly_eval(p, x, m) == (p[0] + 0nat * pow_mod(x, (p.len() - 1) as nat, m)) % m);
        lemma_small_mod(p[0], m);
    }
}

/// At its own coordinate a basis numerator evaluates to exactly the
/// Lagrange denominator of its share.
proof fn lemma_basis_eval_at_own_point(xs: Seq<nat>, skip: int, j: nat, m: nat)
    requires
        m >= 2,
        0 <= skip < xs.len(),
        j <= xs.len(),
        forall|l: int| 0 <= l < xs.len() ==> #[trigger] xs[l] < m,
    ensures
        poly_eval(basis_seq(xs, skip, j, m), xs[skip], m) == denom_prefix(xs, skip, j, m),
    decreases j,
{
    let n = xs.len() as int;
    let x = xs[skip];
    if j == 0 {
        let b0 = basis_seq(xs, skip, 0, m);
        assert(b0[0] == 1nat % m);
        assert(1nat % m == 1) by {
            lemma_small_mod(1, m);
        }
        lemma_poly_eval_constant_padded(b0, x, m);
    } else if j - 1 == skip {
        lemma_basis_eval_at_own_point(xs, skip, (j - 1) as nat, m);
        assert(basis_seq(xs, skip, j, m) =~= basis_seq(xs, skip, (j - 1) as nat, m));
    } else {
        lemma_basis_eval_at_own_point(xs, skip, (j - 1) as nat, m);
        let p = basis_seq(xs, skip, (j - 1) as nat, m);
        assert forall|k: int| 0 <= k < p.len() implies #[trigger] p[k] < m by {
            lemma_basis_at_bound(xs, skip, (j - 1) as nat, k, m);
        }
        assert(p.last() == 0) by {
            lemma_basis_top_zero(xs, skip, (j - 1) as nat, n - 1, m);
        }
        assert(basis_seq(xs, skip, j, m) =~= crate::math::poly_mul_linear(p, xs[j - 1], m));
        crate::math::lemma_poly_eval_mul_linear(p, xs[j - 1], x, m);
        let ev = poly_eval(basis_seq(xs, skip, j, m), x, m);
        assert(mul_mod(p.last(), pow_mod(x, p.len(), m), m) == 0) by {
            lemma_small_mod(0, m);
        }
        assert(add_mod(ev, 0, m) == mul_mod(sub_mod(x, xs[j - 1], m), poly_eval(p, x, m), m));
        assert(basis_seq(xs, skip, j, m).len() >= 1);
        vstd::arithmetic::div_mod::lemma_mod_bound(
            (poly_eval(basis_seq(xs, skip, j, m).drop_last(), x, m) + basis_seq(
                xs,
                skip,
                j,
                m,
            ).last() * pow_mod(x, (basis_seq(xs, skip, j, m).len() - 1) as nat, m)) as int,
            m as int,
        );
        lemma_small_mod(ev, m);
        lemma_mul_is_commutative(
            sub_mod(x, xs[j - 1], m) as int,
            denom_prefix(xs, skip, (j - 1) as nat, m) as int,
        );
        assert(ev == mul_mod(
            denom_prefix(xs, skip, (j - 1) as nat, m),
            sub_mod(x, xs[j - 1], m),
            m,
        ));
    }
}

/// The per-factor inverse product is the inverse of the denominator
/// product, given that every factor has an inverse.
proof fn lemma_inv_denom_cancels(xs: Seq<nat>, skip: int, j: nat, m: nat)
    requires
        m >= 2,
        0 <= skip < xs.len(),
        j <= xs.len(),
        forall|l: int|
            0 <= l < xs.len() && l != skip ==> mul_mod(
                sub_mod(xs[skip], #[trigger] xs[l], m),
                inv_mod(sub_mod(xs[skip], xs[l], m), m),
                m,
            ) == 1,
    ensures
        mul_mod(denom_prefix(xs, skip, j, m), inv_denom_prefix(xs, skip, j, m), m) == 1,
    decreases j,
{
    lemma_small_mod(1, m);
    if j == 0 {
        assert(mul_mod(1nat % m, 1nat % m, m) == 1);
    } else if j - 1 == skip {
        lemma_inv_denom_cancels(xs, skip, (j - 1) as nat, m);
    } else {
        lemma_inv_denom_cancels(xs, skip, (j - 1) as nat, m);
        let dd = denom_prefix(xs, skip, (j - 1) as nat, m);
        let vv = inv_denom_prefix(xs, skip, (j - 1) as nat, m);
        let f = sub_mod(xs[skip], xs[j - 1], m);
        let g = inv_mod(f, m);
        // ((dd·f)·(vv·g)) reduced equals ((dd·vv)·(f·g)) reduced equals 1
        lemma_mul_mod_noop_general(((dd * f) as nat) as int, ((vv * g) as nat) as int, m as int);
        assert(mul_mod(mul_mod(dd, f, m), mul_mod(vv, g, m), m) == ((dd * f) * (vv * g)) % m);
        assert((dd * f) * (vv * g) == (dd * vv) * (f * g)) by (nonlinear_arith);
        lemma_mul_mod_noop_general(((dd * vv) as nat) as int, ((f * g) as nat) as int, m as int);
        assert(((dd * vv) * (f * g)) % m == mul_mod(mul_mod(dd, vv, m), mul_mod(f, g, m), m));
        assert(mul_mod(mul_mod(dd, vv, m), mul_mod(f, g, m), m) == mul_mod(1, 1, m));
    }
}

/// Scaling every coefficient scales the evaluation.
proof fn lemma_poly_eval_scale(p: Seq<nat>, s: nat, x: nat, m: nat)
    requires
        m >= 2,
    ensures
        poly_eval(Seq::new(p.len(), |k: int| mul_mod(s, p[k], m)), x, m) == mul_mod(
            s,
            poly_eval(p, x, m),
            m,
        ),
    decreases p.len(),
{
    let q = Seq::new(p.len(), |k: int| mul_mod(s, p[k], m));
    if p.len() == 0 {
        assert(q.len() == 0);
        lemma_small_mod(0, m);
        assert(mul_mod(s, 0, m) == 0);
    } else {
        let pp = p.drop_last();
        lemma_poly_eval_scale(pp, s, x, m);
        let qq = Seq::new(pp.len(), |k: int| mul_mod(s, pp[k], m));
        assert(q.drop_last() =~= qq);
        let bigp = pow_mod(x, (p.len() - 1) as nat, m);
        let e = poly_eval(pp, x, m);
        assert(q.last() == mul_mod(s, p.last(), m));
        assert(poly_eval(q, x, m) == (mul_mod(s, e, m) + mul_mod(s, p.last(), m) * bigp) % m);
        // fold the reductions out, factor s, and fold back in
        crate::modring::lemma_add_mod_left((s * e) as nat, (mul_mod(s, p.last(), m) * bigp) as nat, m);
        lemma_mul_mod_noop_left((s * p.last()) as int, bigp as int, m as int);
        lemma_mod_add_cong(
            (mul_mod(s, p.last(), m) * bigp) as nat,
            (s * p.last() * bigp) as nat,
            (s * e) as nat,
            m,
        );
        assert(poly_eval(q, x, m) == (s * e + s * p.last() * bigp) % m);
        assert(s * e + s * p.last() * bigp == s * ((e + p.last() * bigp) as nat)) by (nonlinear_arith);
        lemma_mul_mod_noop_right(s as int, (e + p.last() * bigp) as int, m as int);
        assert(poly_eval(q, x, m) == (s * (((e + p.last() * bigp) as nat) % m)) % m);
    }
}

/// The coefficient view of the reconstruction after `i` contributions.
pub open spec fn interp_seq(xs: Seq<nat>, ys: Seq<nat>, i: nat, m: nat) -> Seq<nat> {
    Seq::new(xs.len(), |k: int| interp_at(xs, ys, i, k, m))
}

/// After the first `i` shares contributed, the reconstruction evaluates at
/// share `j0`'s coordinate to zero until share `j0` itself has contributed,
/// and to `ys[j0]` from then on: every other share's basis vanishes there,
/// and share `j0`'s own basis cancels against its denominator.
proof fn lemma_interp_eval_at_point(xs: Seq<nat>, ys: Seq<nat>, j0: int, i: nat, m: nat)
    requires
        m >= 2,
        xs.len() == ys.len(),
        0 <= j0 < xs.len(),
        ys[j0] < m,
        i <= xs.len(),
        forall|l: int| 0 <= l < xs.len() ==> #[trigger] xs[l] < m,
        forall|l: int|
            0 <= l < xs.len() && l != j0 ==> mul_mod(
                sub_mod(xs[j0], #[trigger] xs[l], m),
                inv_mod(sub_mod(xs[j0], xs[l], m), m),
                m,
            ) == 1,
    ensures
        poly_eval(interp_seq(xs, ys, i, m), xs[j0], m) == if i <= j0 {
            0nat
        } else {
            ys[j0]
        },
    decreases i,
{
    let n = xs.len() as int;
    let x = xs[j0];
    if i == 0 {
        assert(interp_seq(xs, ys, 0, m) =~= Seq::new(xs.len(), |k: int| 0nat));
        crate::math::lemma_poly_eval_zero(xs.len(), x, m);
    } else {
        lemma_interp_eval_at_point(xs, ys, j0, (i - 1) as nat, m);
        let prev = interp_seq(xs, ys, (i - 1) as nat, m);
        let y = ys[i - 1];
        let vv = inv_denom(xs, i - 1, m);
        let s = mul_mod(y, vv, m);
        let bp = basis_poly(xs, i - 1, m);
        let scaled = Seq::new(bp.len(), |k: int| mul_mod(s, bp[k], m));
        assert(interp_seq(xs, ys, i, m) =~= poly_add(prev, scaled, m)) by {
            assert forall|k: int| 0 <= k < n implies interp_at(xs, ys, i, k, m) == add_mod(
                prev[k],
                scaled[k],
                m,
            ) by {
                let b = basis_at(xs, i - 1, xs.len(), k, m);
                lemma_mul_mod_noop_right(y as int, (b * vv) as int, m as int);
                lemma_mul_mod_noop_left((y * vv) as int, b as int, m as int);
                assert(y * (b * vv) == (y * vv) * b) by (nonlinear_arith);
                assert(mul_mod(y, mul_mod(b, vv, m), m) == mul_mod(s, b, m));
            }
        }
        crate::math::lemma_poly_eval_add(prev, scaled, x, m);
        lemma_poly_eval_scale(bp, s, x, m);
        let ep = poly_eval(prev, x, m);
        let eb = poly_eval(bp, x, m);
        assert(poly_eval(interp_seq(xs, ys, i, m), x, m) == add_mod(ep, mul_mod(s, eb, m), m));
        vstd::arithmetic::div_mod::lemma_mod_bound((s * eb) as int, m as int);
        if i - 1 == j0 {
            // the share's own contribution: basis times inverse denominator is one
            assert(bp =~= basis_seq(xs, j0, xs.len(), m));
            lemma_basis_eval_at_own_point(xs, j0, xs.len(), m);
            let dd = denom_prefix(xs, j0, xs.len(), m);
            assert(eb == dd);
            lemma_inv_denom_cancels(xs, j0, xs.len(), m);
            assert(mul_mod(dd, vv, m) == 1);
            // s·dd == y·(vv·dd) reduces to y
            lemma_mul_mod_noop_left((y * vv) as int, dd as int, m as int);
            assert((y * vv) * dd == y * (dd * vv)) by (nonlinear_arith);
            lemma_mul_mod_noop_right(y as int, (dd * vv) as int, m as int);
            assert(mul_mod(s, dd, m) == (y * 1nat) % m);
            lemma_small_mod(y, m);
            assert(mul_mod(s, eb, m) == y);
            // before this step nothing had accumulated at this coordinate
            assert(ep == 0);
            lemma_small_mod(y, m);
            assert(add_mod(0, y, m) == y);
        } else {
            // any other share's basis vanishes at this coordinate
            lemma_basis_vanishes_at_other_points(xs, i - 1, j0, m);
            assert(eb == 0);
            assert(mul_mod(s, 0, m) == 0) by {
                lemma_small_mod(0, m);
            }
            if i - 1 <= j0 {
                assert(ep == 0);
                lemma_small_mod(0, m);
                assert(add_mod(0, 0, m) == 0);
            } else {
                assert(ep == ys[j0]);
                lemma_small_mod(ys[j0], m);
                assert(add_mod(ys[j0], 0, m) == ys[j0]);
            }
        }
    }
}

/// The reconstruction interpolates its inputs: evaluated at a contributing
/// share's coordinate, the reconstructed commitment polynomial takes exactly
/// that share's value — so each contributor's rebuilt public share matches
/// the secret share it was derived from. Requires every pairwise coordinate
/// difference to have a multiplicative inverse, which distinct coordinates
/// in a prime field provide.
pub proof fn lemma_reconstruction_interpolates(xs: Seq<nat>, ys: Seq<nat>, j0: int, m: nat)
    requires
        m >= 2,
        xs.len() == ys.len(),
        0 <= j0 < xs.len(),
        ys[j0] < m,
        forall|l: int| 0 <= l < xs.len() ==> #[trigger] xs[l] < m,
        forall|i: int, l: int|
            0 <= i < xs.len() && 0 <= l < xs.len() && i != l ==> mul_mod(
                sub_mod(#[trigger] xs[i], #[trigger] xs[l], m),
                inv_mod(sub_mod(xs[i], xs[l], m), m),
                m,
            ) == 1,
    ensures
        poly_eval(interp_commitments(xs, ys, m), xs[j0], m) == ys[j0],
{
    lemma_interp_eval_at_point(xs, ys, j0, xs.len(), m);
    assert(interp_commitments(xs, ys, m) =~= interp_seq(xs, ys, xs.len(), m));
}

/// Reconstructed commitment exponents are reduced field elements.
proof fn lemma_interp_at_bound(xs: Seq<nat>, ys: Seq<nat>, i: nat, k: int, m: nat)
    requires
        m >= 1,
    ensures
        interp_at(xs, ys, i, k, m) < m,
{
    if i == 0 {
    } else {
        vstd::arithmetic::div_mod::lemma_mod_bound(
            (interp_at(xs, ys, (i - 1) as nat, k, m) + mul_mod(
                ys[i - 1],
                mul_mod(basis_at(xs, i - 1, xs.len(), k, m), inv_denom(xs, i - 1, m), m),
                m,
            )) as int,
            m as int,
        );
    }
}

/// Shamir reconstruction is exact: when the shares lie on one polynomial
/// with as many coefficients as there are shares, the reconstructed
/// commitment exponents are exactly that polynomial's coefficients — in
/// particular, the first one is the shared secret. This holds for any
/// quorum whose pairwise coordinate differences are invertible, which
/// distinct coordinates in a prime field always are.
pub proof fn lemma_reconstruction_recovers_polynomial(
    xs: Seq<nat>,
    ys: Seq<nat>,
    c: Seq<nat>,
    m: nat,
)
    requires
        m >= 2,
        xs.len() == ys.len(),
        c.len() == xs.len(),
        xs.len() >= 1,
        forall|k: int| 0 <= k < c.len() ==> #[trigger] c[k] < m,
        forall|l: int| 0 <= l < xs.len() ==> #[trigger] xs[l] < m,
        forall|l: int| 0 <= l < xs.len() ==> #[trigger] ys[l] == poly_eval(c, xs[l], m),
        forall|i: int, l: int|
            0 <= i < xs.len() && 0 <= l < xs.len() && i != l ==> mul_mod(
                sub_mod(#[trigger] xs[i], #[trigger] xs[l], m),
                inv_mod(sub_mod(xs[i], xs[l], m), m),
                m,
            ) == 1,
    ensures
        interp_commitments(xs, ys, m) == c,
{
    let n = xs.len();
    let ic = interp_commitments(xs, ys, m);
    assert(ic.len() == n);
    assert forall|k: int| 0 <= k < n as int implies #[trigger] ic[k] < m by {
        lemma_interp_at_bound(xs, ys, n, k, m);
    }
    assert forall|l: int| 0 <= l < n as int implies #[trigger] ys[l] < m by {
        crate::math::lemma_poly_eval_bound(c, xs[l], m);
    }
    // the difference polynomial vanishes at every coordinate
    let d = Seq::new(n, |k: int| sub_mod(ic[k], c[k], m));
    assert(poly_add(d, c, m) =~= ic) by {
        assert forall|k: int| 0 <= k < n as int implies add_mod(d[k], c[k], m) == ic[k] by {
            crate::modring::lemma_sub_then_add(ic[k], c[k], m);
        }
    }
    assert forall|l: int| 0 <= l < n as int implies poly_eval(d, #[trigger] xs[l], m) == 0 by {
        lemma_reconstruction_interpolates(xs, ys, l, m);
        assert(poly_eval(ic, xs[l], m) == ys[l]);
        crate::math::lemma_poly_eval_add(d, c, xs[l], m);
        assert(add_mod(poly_eval(d, xs[l], m), poly_eval(c, xs[l], m), m) == ys[l]);
        crate::modring::lemma_add_cancel_zero(poly_eval(d, xs[l], m), ys[l], m);
        crate::math::lemma_poly_eval_bound(d, xs[l], m);
        lemma_small_mod(poly_eval(d, xs[l], m), m);
    }
    assert forall|k: int| 0 <= k < d.len() implies #[trigger] d[k] < m by {
        vstd::arithmetic::div_mod::lemma_mod_bound(((ic[k] + m) - c[k]) as int, m as int);
    }
    crate::math::lemma_roots_force_zero(d, xs, m);
    assert forall|k: int| 0 <= k < n as int implies #[trigger] ic[k] == c[k] by {
        assert(d[k] == 0);
        lemma_sub_mod_zero_iff(ic[k], c[k], m);
    }
    assert(ic =~= c);
}

/// The Lagrange weight of a share factors through the reconstruction's
/// pieces: over any step prefix it equals the basis numerator's constant
/// coefficient times the reciprocal denominator — each step contributes
/// `(-x_j)` to the one and `1/(x_i - x_j)` to the other, and the signs
/// cancel pairwise into `x_j / (x_j - x_i)`.
proof fn lemma_weight_is_basis_over_denom(pts: Seq<u64>, xs: Seq<nat>, i0: int, j: nat, m: nat)
    requires
        m >= 2,
        pts.len() == xs.len(),
        0 <= i0 < xs.len(),
        j <= xs.len(),
        forall|l: int| 0 <= l < xs.len() ==> #[trigger] xs[l] < m && xs[l] == pts[l] as nat,
        forall|l: int|
            0 <= l < xs.len() && l != i0 ==> mul_mod(
                sub_mod(xs[i0], #[trigger] xs[l], m),
                inv_mod(sub_mod(xs[i0], xs[l], m), m),
                m,
            ) == 1,
    ensures
        lagrange_weight(xs[i0], pts.take(j as int), m) == mul_mod(
            basis_at(xs, i0, j, 0, m),
            inv_denom_prefix(xs, i0, j, m),
            m,
        ),
    decreases j,
{
    let my = xs[i0];
    lemma_small_mod(1, m);
    if j == 0 {
        assert(pts.take(0) =~= Seq::<u64>::empty());
        assert(lagrange_weight(my, pts.take(0), m) == 1);
        assert(1nat % m == 1);
        assert(1nat * 1nat == 1);
        assert(mul_mod(1nat % m, 1nat % m, m) == (1nat * 1nat) % m);
        assert(mul_mod(1nat % m, 1nat % m, m) == 1);
    } else {
        lemma_weight_is_basis_over_denom(pts, xs, i0, (j - 1) as nat, m);
        let tk1 = pts.take(j as int);
        assert(tk1.drop_last() =~= pts.take(j - 1));
        assert(tk1.last() == pts[j - 1]);
        let xj = xs[j - 1];
        assert(xj == pts[j - 1] as nat);
        let bb = basis_at(xs, i0, (j - 1) as nat, 0, m);
        let vv = inv_denom_prefix(xs, i0, (j - 1) as nat, m);
        lemma_basis_at_bound(xs, i0, (j - 1) as nat, 0, m);
        lemma_inv_denom_prefix_bound(xs, i0, (j - 1) as nat, m);
        if j - 1 == i0 {
            assert(xj == my);
            assert(lagrange_weight(my, tk1, m) == lagrange_weight(my, pts.take(j - 1), m));
        } else {
            let f = sub_mod(my, xj, m);
            let g = inv_mod(f, m);
            assert(mul_mod(f, g, m) == 1);
            // the factor is nonzero, so the coordinates differ
            assert(f != 0) by {
                if f == 0 {
                    assert(0nat * g == 0);
                    lemma_small_mod(0, m);
                }
            }
            lemma_sub_mod_zero_iff(my, xj, m);
            assert(xj != my);
            vstd::arithmetic::div_mod::lemma_mod_bound(((my + m) - xj) as int, m as int);
            crate::modring::lemma_inv_mod_neg(f, m);
            let gn = sub_mod(0, g, m);
            // the opposite difference is the negated one
            let fr = sub_mod(xj, my, m);
            assert(fr == sub_mod(0, f, m)) by {
                if xj > my {
                    lemma_small_mod((xj - my) as nat, m);
                    vstd::arithmetic::div_mod::lemma_mod_add_multiples_vanish(
                        (xj - my) as int,
                        m as int,
                    );
                    assert(f == (m - (xj - my)) as nat) by {
                        lemma_small_mod((m - (xj - my)) as nat, m);
                    }
                    lemma_small_mod((m - f) as nat, m);
                } else {
                    lemma_small_mod((my - xj) as nat, m);
                    vstd::arithmetic::div_mod::lemma_mod_add_multiples_vanish(
                        (my - xj) as int,
                        m as int,
                    );
                    assert(f == (my - xj) as nat);
                    lemma_small_mod((m - f) as nat, m);
                    vstd::arithmetic::div_mod::lemma_mod_add_multiples_vanish(
                        (m - (my - xj)) as int,
                        m as int,
                    );
                }
            }
            assert(inv_mod(fr, m) == gn);
            // the lagrange step multiplies by x_j / (x_j - my)
            assert(lagrange_weight(my, tk1, m) == mul_mod(
                lagrange_weight(my, pts.take(j - 1), m),
                mul_mod(xj, gn, m),
                m,
            ));
            // the reconstruction step multiplies (-x_j) into the basis and
            // 1/(my - x_j) into the reciprocal denominator
            let tt = mul_mod(xj, bb, m);
            let b1 = basis_at(xs, i0, j, 0, m);
            let v1 = inv_denom_prefix(xs, i0, j, m);
            assert(b1 == sub_mod(0, tt, m));
            assert(v1 == mul_mod(vv, g, m));
            vstd::arithmetic::div_mod::lemma_mod_bound((xj * bb) as int, m as int);
            vstd::arithmetic::div_mod::lemma_mod_bound(((0 + m) - tt) as int, m as int);
            vstd::arithmetic::div_mod::lemma_mod_bound((vv * g) as int, m as int);
            // b1 and (-x_j)·bb are the same reduced value
            let xn = sub_mod(0, xj, m);
            vstd::arithmetic::div_mod::lemma_mod_bound(((0 + m) - xj) as int, m as int);
            let w2 = mul_mod(xn, bb, m);
            assert(b1 == w2) by {
                if xj == 0 {
                    lemma_small_mod(0, m);
                    vstd::arithmetic::div_mod::lemma_mod_self_0(m as int);
                    assert(0nat * bb == 0);
                    assert(tt == 0);
                    assert(b1 == sub_mod(0, 0, m));
                    assert(xn == sub_mod(0, 0, m));
                    assert(xn == 0);
                    assert(xn * bb == 0);
                    assert(w2 == 0);
                } else {
                    lemma_small_mod((m - xj) as nat, m);
                    assert(xn == m - xj);
                    crate::modring::lemma_sub_then_add(0, tt, m);
                    assert((b1 + tt) % m == 0) by {
                        lemma_small_mod(0, m);
                    }
                    assert((w2 + tt) % m == 0) by {
                        lemma_add_mod_noop((xn * bb) as int, (xj * bb) as int, m as int);
                        assert((xn * bb + xj * bb) as int == (m as int) * (bb as int))
                            by (nonlinear_arith)
                            requires
                                xn == m - xj,
                                xj < m,
                        ;
                        crate::modring::lemma_congruent_by_multiple(
                            ((xn * bb) + (xj * bb)) as nat,
                            0,
                            bb as int,
                            m,
                        );
                        lemma_small_mod(0, m);
                        vstd::arithmetic::div_mod::lemma_mod_bound((w2 + tt) as int, m as int);
                    }
                    crate::modring::lemma_add_cancel_equal(b1, w2, tt, m);
                }
            }
            // assemble: (b1·v1) == ((bb·vv)·(x_j·(-g)))
            lemma_mul_mod_noop_right(b1 as int, (vv * g) as int, m as int);
            lemma_mul_mod_noop_left((xn * bb) as int, (vv * g) as int, m as int);
            assert(mul_mod(b1, v1, m) == ((xn * bb) * (vv * g)) % m) by {
                assert(mul_mod(b1, v1, m) == (b1 * ((vv * g) as nat)) % m);
                assert((b1 * ((vv * g) as nat)) % m == (w2 * ((vv * g) as nat)) % m) by {
                    lemma_mul_mod_noop_left((xn * bb) as int, (vv * g) as int, m as int);
                    lemma_mul_mod_noop_left(b1 as int, (vv * g) as int, m as int);
                    lemma_small_mod(b1, m);
                }
                lemma_mul_mod_noop_left((xn * bb) as int, (vv * g) as int, m as int);
                lemma_small_mod(w2, m);
            }
            assert(((xn * bb) * (vv * g)) == ((bb * vv) * (xn * g))) by (nonlinear_arith);
            lemma_mul_mod_noop_general((bb * vv) as int, (xn * g) as int, m as int);
            assert(((bb * vv) * (xn * g)) % m == mul_mod(mul_mod(bb, vv, m), mul_mod(xn, g, m), m));
            crate::modring::lemma_mul_neg_swap(xj, g, m);
            assert(mul_mod(xn, g, m) == mul_mod(xj, gn, m));
            assert(mul_mod(b1, v1, m) == mul_mod(mul_mod(bb, vv, m), mul_mod(xj, gn, m), m));
        }
    }
}

/// The additive shares of a quorum: the sum, over the first `i` members, of
/// each share value times its Lagrange weight for the quorum `pts`.
pub open spec fn weighted_share_sum(pts: Seq<u64>, ys: Seq<nat>, i: nat, m: nat) -> nat
    decreases i,
{
    if i == 0 {
        0nat
    } else {
        add_mod(
            weighted_share_sum(pts, ys, (i - 1) as nat, m),
            mul_mod(ys[i - 1], lagrange_weight(pts[i - 1] as nat, pts, m), m),
            m,
        )
    }
}

proof fn lemma_weighted_sum_is_interp(pts: Seq<u64>, xs: Seq<nat>, ys: Seq<nat>, i: nat, m: nat)
    requires
        m >= 2,
        pts.len() == xs.len(),
        xs.len() == ys.len(),
        i <= xs.len(),
        forall|l: int| 0 <= l < xs.len() ==> #[trigger] xs[l] < m && xs[l] == pts[l] as nat,
        forall|i2: int, l: int|
            0 <= i2 < xs.len() && 0 <= l < xs.len() && i2 != l ==> mul_mod(
                sub_mod(#[trigger] xs[i2], #[trigger] xs[l], m),
                inv_mod(sub_mod(xs[i2], xs[l], m), m),
                m,
            ) == 1,
    ensures
        weighted_share_sum(pts, ys, i, m) == interp_at(xs, ys, i, 0, m),
    decreases i,
{
    if i > 0 {
        lemma_weighted_sum_is_interp(pts, xs, ys, (i - 1) as nat, m);
        let i0 = i - 1;
        lemma_weight_is_basis_over_denom(pts, xs, i0, xs.len(), m);
        assert(pts.take(xs.len() as int) =~= pts);
        assert(lagrange_weight(pts[i0] as nat, pts, m) == mul_mod(
            basis_at(xs, i0, xs.len(), 0, m),
            inv_denom(xs, i0, m),
            m,
        ));
    }
}

/// Converting every Shamir share of a quorum to its additive form and
/// summing recovers the shared secret exactly: the weighted share sum is
/// the reconstruction's constant commitment exponent, which is the
/// polynomial's constant term. Holds for any quorum with as many members as
/// the polynomial has coefficients, given invertible pairwise coordinate
/// differences.
pub proof fn lemma_additive_shares_sum_to_secret(pts: Seq<u64>, ys: Seq<nat>, c: Seq<nat>, m: nat)
    requires
        m >= 2,
        pts.len() == ys.len(),
        c.len() == pts.len(),
        pts.len() >= 1,
        forall|k: int| 0 <= k < c.len() ==> #[trigger] c[k] < m,
        forall|l: int| 0 <= l < pts.len() ==> (#[trigger] pts[l] as nat) < m,
        forall|l: int| 0 <= l < pts.len() ==> #[trigger] ys[l] == poly_eval(c, pts[l] as nat, m),
        forall|i: int, l: int|
            0 <= i < pts.len() && 0 <= l < pts.len() && i != l ==> mul_mod(
                sub_mod((#[trigger] pts[i] as nat), (#[trigger] pts[l] as nat), m),
                inv_mod(sub_mod(pts[i] as nat, pts[l] as nat, m), m),
                m,
            ) == 1,
    ensures
        weighted_share_sum(pts, ys, pts.len(), m) == c[0],
{
    let xs = Seq::new(pts.len(), |l: int| pts[l] as nat);
    assert forall|l: int| 0 <= l < xs.len() implies #[trigger] xs[l] < m && xs[l] == (
    pts[l] as nat) by {
    }
    lemma_weighted_sum_is_interp(pts, xs, ys, pts.len(), m);
    lemma_reconstruction_recovers_polynomial(xs, ys, c, m);
    assert(interp_commitments(xs, ys, m)[0] == interp_at(xs, ys, xs.len(), 0, m));
}

} // verus!
