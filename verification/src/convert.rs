//! Conversions between the two sharing semantics.
//!
//! A Shamir share becomes an additive share for a chosen quorum by one local
//! multiplication with its Lagrange coefficient; a set of additive shares
//! becomes a fresh Shamir sharing of the same secret through the resharing
//! engine, which simulates the interactive sub-share-and-sum protocol in one
//! process. The simulation is a trusted-dealer shortcut: a real deployment
//! must deliver each sub-share over its own confidential channel instead of
//! holding all of them in one address space.

use vstd::prelude::*;
use vstd::arithmetic::div_mod::lemma_mod_bound;
use crate::codec::decode_scalar;
use crate::codec::encode_scalar;
use crate::codec::scalar_hex;
use crate::codec::scalar_str_err;
use crate::codec::scalar_str_ok;
use crate::codec::scalar_str_val;
use crate::error::BridgeError;
use crate::math::calculate_lagrange_coefficient;
use crate::math::generate_shares_inner;
use crate::math::has_dup;
use crate::math::lagrange_weight;
use crate::math::lemma_poly_eval_add;
use crate::math::lemma_poly_eval_zero;
use crate::math::poly_add;
use crate::math::poly_eval;
use crate::modring::add_mod;
use crate::modring::mul_mod;
use crate::reconstruct::has_dup_index;
use crate::scalar::group_order;
use crate::scalar::Scalar;
use crate::scalar::k_add;
use crate::scalar::k_from_u64;
use crate::scalar::k_mul;
use crate::share::PortableKeyShare;

verus! {

broadcast use crate::scalar::lemma_scalar_wf_bound;

/// Some record declares participant index `j`.
pub open spec fn holds_index(shares: Seq<PortableKeyShare>, j: int) -> bool {
    exists|k: int| 0 <= k < shares.len() && (#[trigger] shares[k].i) == j
}

/// The records declare exactly the dense index space `0..n`: every index
/// below the record count occurs, and none occurs twice.
pub open spec fn participant_set_ok(shares: Seq<PortableKeyShare>) -> bool {
    (forall|j: int| 0 <= j < shares.len() ==> #[trigger] holds_index(shares, j))
        && !has_dup_index(shares)
}

/// The position of the record that declares index `j`.
pub open spec fn slot_of(shares: Seq<PortableKeyShare>, j: int) -> int {
    choose|k: int| 0 <= k < shares.len() && (#[trigger] shares[k].i) == j
}

/// The record that declares index `j`.
pub open spec fn record_at(shares: Seq<PortableKeyShare>, j: int) -> PortableKeyShare {
    shares[slot_of(shares, j)]
}

/// The sum, modulo `m`, of the first `j` records' share values, taken in
/// participant-index order.
pub open spec fn quorum_sum(shares: Seq<PortableKeyShare>, j: nat, m: nat) -> nat
    decreases j,
{
    if j == 0 {
        0nat
    } else {
        add_mod(
            quorum_sum(shares, (j - 1) as nat, m),
            scalar_str_val(record_at(shares, j - 1).x_hex@),
            m,
        )
    }
}

/// The resharing engine's output lies on one polynomial: `c` has the
/// threshold's width, its constant term is the quorum's summed secret, and
/// record `j` carries the polynomial's value at `j + 1` with its metadata
/// carried over.
pub open spec fn reshare_witness(
    shares: Seq<PortableKeyShare>,
    threshold: u16,
    out: Seq<PortableKeyShare>,
    c: Seq<nat>,
) -> bool {
    let m = group_order();
    &&& c.len() == (if threshold == 0 {
        1int
    } else {
        threshold as int
    })
    &&& c[0] == quorum_sum(shares, shares.len(), m)
    &&& (forall|k: int| 0 <= k < c.len() ==> #[trigger] c[k] < m)
    &&& (forall|j: int|
        #![trigger out[j]]
        0 <= j < out.len() ==> {
            &&& out[j].i as int == j
            &&& out[j].t == threshold
            &&& out[j].n == record_at(shares, j).n
            &&& out[j].y_hex@ == record_at(shares, j).y_hex@
            &&& out[j].x_hex@ == scalar_hex(poly_eval(c, (j + 1) as nat, m))
        })
}

/// The sub-share strings lie on one polynomial with the given secret as its
/// constant term.
pub open spec fn subshare_witness(secret: nat, threshold: u16, out: Seq<String>, c: Seq<nat>) -> bool {
    let m = group_order();
    &&& c.len() == (if threshold == 0 {
        1int
    } else {
        threshold as int
    })
    &&& c[0] == secret
    &&& (forall|k: int| 0 <= k < c.len() ==> #[trigger] c[k] < m)
    &&& (forall|j: int|
        0 <= j < out.len() ==> (#[trigger] out[j])@ == scalar_hex(
            poly_eval(c, (j + 1) as nat, m),
        ))
}

/// The resharing engine's full contract, case by case: a broken index space
/// fails with `MismatchedParticipantSet`; otherwise the first record, in
/// index order, whose scalar does not parse decides the error; otherwise the
/// new records reshare the summed secret under the new threshold.
pub open spec fn reshare_post(
    shares: Seq<PortableKeyShare>,
    threshold: u16,
    r: Result<Vec<PortableKeyShare>, BridgeError>,
) -> bool {
    let n = shares.len() as int;
    let all_decode = forall|j: int|
        0 <= j < n ==> scalar_str_ok(#[trigger] record_at(shares, j).x_hex@);
    &&& (!participant_set_ok(shares) ==> r == Err::<Vec<PortableKeyShare>, BridgeError>(
        BridgeError::MismatchedParticipantSet,
    ))
    &&& (participant_set_ok(shares) && !all_decode ==> (exists|j: int|
        {
            &&& 0 <= j < n
            &&& !scalar_str_ok(#[trigger] record_at(shares, j).x_hex@)
            &&& (forall|j2: int|
                0 <= j2 < j ==> scalar_str_ok(#[trigger] record_at(shares, j2).x_hex@))
            &&& r == Err::<Vec<PortableKeyShare>, BridgeError>(
                scalar_str_err(record_at(shares, j).x_hex@),
            )
        }))
    &&& (participant_set_ok(shares) && all_decode ==> (r matches Ok(out) && out@.len() == n
        && exists|c: Seq<nat>| #[trigger] reshare_witness(shares, threshold, out@, c)))
}

/// Splits one additive share into `n` Shamir sub-shares along a random
/// polynomial of degree `max(threshold, 1) - 1` whose constant term is the
/// share; the sub-shares come back in the canonical hex encoding.
pub fn generate_resharing_polynomial(additive_share_hex: &str, threshold: u16, n: u16) -> (r:
    Result<Vec<String>, BridgeError>)
    ensures
        !scalar_str_ok(additive_share_hex@) ==> r == Err::<Vec<String>, BridgeError>(
            scalar_str_err(additive_share_hex@),
        ),
        scalar_str_ok(additive_share_hex@) ==> (r matches Ok(out) && out@.len() == n as int
            && exists|c: Seq<nat>|
            #[trigger] subshare_witness(scalar_str_val(additive_share_hex@), threshold, out@, c)),
{
    let secret = match decode_scalar(additive_share_hex) {
        Ok(s) => s,
        Err(e) => {
            return Err(e);
        },
    };
    let ghost sv = secret@;
    let (subs, gc) = generate_shares_inner(secret, threshold, n);
    let mut out: Vec<String> = Vec::new();
    let count = subs.len();
    for j in 0..count
        invariant
            count == n as int,
            subs@.len() == n as int,
            forall|t: int|
                0 <= t < n as int ==> (#[trigger] subs@[t]).wf() && subs@[t]@ == poly_eval(
                    gc@,
                    (t + 1) as nat,
                    group_order(),
                ),
            out@.len() == j,
            forall|t: int|
                0 <= t < j as int ==> (#[trigger] out@[t])@ == scalar_hex(
                    poly_eval(gc@, (t + 1) as nat, group_order()),
                ),
    {
        out.push(encode_scalar(&subs[j]));
    }
    proof {
        assert(subshare_witness(scalar_str_val(additive_share_hex@), threshold, out@, gc@));
        assert(exists|c: Seq<nat>|
            #[trigger] subshare_witness(scalar_str_val(additive_share_hex@), threshold, out@, c));
    }
    Ok(out)
}

/// Turns a Shamir share into an additive share for the signing quorum
/// `all_indices` (1-based coordinates): the share is multiplied by its
/// Lagrange coefficient, and the threshold becomes `n`, an additive share
/// being definitionally n-of-n. Every quorum member must use the same
/// coordinate set, or the additive shares will not sum to the secret.
pub fn shamir_portable_to_additive_portable(share: PortableKeyShare, all_indices: &[u64]) -> (r:
    Result<PortableKeyShare, BridgeError>)
    ensures
        !scalar_str_ok(share.x_hex@) ==> r == Err::<PortableKeyShare, BridgeError>(
            scalar_str_err(share.x_hex@),
        ),
        scalar_str_ok(share.x_hex@) && has_dup(all_indices@) ==> r == Err::<
            PortableKeyShare,
            BridgeError,
        >(BridgeError::DuplicatePoint),
        scalar_str_ok(share.x_hex@) && !has_dup(all_indices@) ==> (r matches Ok(out) && {
            &&& out.i == share.i
            &&& out.n == share.n
            &&& out.t == share.n
            &&& out.y_hex@ == share.y_hex@
            &&& out.x_hex@ == scalar_hex(
                mul_mod(
                    scalar_str_val(share.x_hex@),
                    lagrange_weight((share.i + 1) as nat, all_indices@, group_order()),
                    group_order(),
                ),
            )
        }),
{
    let x = match decode_scalar(share.x_hex.as_str()) {
        Ok(s) => s,
        Err(e) => {
            return Err(e);
        },
    };
    let lambda = match calculate_lagrange_coefficient(crate::party_point(share.i), all_indices) {
        Ok(l) => l,
        Err(e) => {
            return Err(e);
        },
    };
    let w = k_mul(&x, &lambda);
    Ok(
        PortableKeyShare {
            i: share.i,
            t: share.n,
            n: share.n,
            x_hex: encode_scalar(&w),
            y_hex: share.y_hex,
        },
    )
}

/// Reshares a full set of additive shares into Shamir shares of the same
/// secret: each party splits its share along a fresh random polynomial and
/// every party sums the sub-shares addressed to it, so by linearity the new
/// shares lie on one polynomial whose constant term is the summed secret.
///
/// The records must declare the dense index space `0..n`, each index once,
/// else `MismatchedParticipantSet`; codec errors propagate in index order.
/// Simulated locally: see the module note on the trusted-dealer shortcut.
#[verifier::rlimit(100)]
pub fn additive_portable_to_shamir_portable(
    additive_shares: Vec<PortableKeyShare>,
    threshold: u16,
) -> (r: Result<Vec<PortableKeyShare>, BridgeError>)
    requires
        additive_shares@.len() <= u16::MAX,
    ensures
        reshare_post(additive_shares@, threshold, r),
{
    let ghost shares = additive_shares@;
    let ghost m = group_order();
    let n = additive_shares.len();

    // 1. The index space must be dense and duplicate-free.
    for a in 0..n
        invariant
            n == shares.len(),
            shares == additive_shares@,
            forall|i2: int, j2: int|
                0 <= i2 < j2 < n as int && i2 < a as int ==> #[trigger] shares[i2].i
                    != #[trigger] shares[j2].i,
    {
        for b in (a + 1)..n
            invariant
                n == shares.len(),
                shares == additive_shares@,
                a < n,
                a + 1 <= b <= n,
                forall|i2: int, j2: int|
                    0 <= i2 < j2 < n as int && i2 < a as int ==> #[trigger] shares[i2].i
                        != #[trigger] shares[j2].i,
                forall|j2: int|
                    (a as int) < j2 < (b as int) ==> shares[a as int].i != #[trigger] shares[j2].i,
        {
            if additive_shares[a].i == additive_shares[b].i {
                proof {
                    assert(shares[a as int].i == shares[b as int].i);
                    assert(has_dup_index(shares));
                }
                return Err(BridgeError::MismatchedParticipantSet);
            }
        }
    }
    proof {
        assert(!has_dup_index(shares));
    }

    // 2. Locate each participant's record.
    let mut slots: Vec<usize> = Vec::new();
    for j in 0..n
        invariant
            n == shares.len(),
            n <= u16::MAX,
            shares == additive_shares@,
            !has_dup_index(shares),
            slots@.len() == j,
            forall|t: int|
                0 <= t < j as int ==> #[trigger] slots@[t] < n && shares[slots@[t] as int].i as int
                    == t,
    {
        let mut found: usize = n;
        for k in 0..n
            invariant
                n == shares.len(),
                n <= u16::MAX,
                shares == additive_shares@,
                j < n,
                found == n || (found < n && shares[found as int].i as int == j as int),
                found == n ==> forall|k2: int|
                    0 <= k2 < k as int ==> (#[trigger] shares[k2].i) as int != j as int,
        {
            if found == n && additive_shares[k].i == j as u16 {
                found = k;
            }
        }
        if found == n {
            proof {
                if holds_index(shares, j as int) {
                    let k = choose|k: int|
                        0 <= k < shares.len() && (#[trigger] shares[k].i) == j as int;
                    assert(false);
                }
                assert(!participant_set_ok(shares));
            }
            return Err(BridgeError::MismatchedParticipantSet);
        }
        slots.push(found);
    }
    proof {
        assert forall|j: int| 0 <= j < shares.len() implies #[trigger] holds_index(shares, j) by {
            assert(shares[slots@[j] as int].i == j);
        }
        assert(participant_set_ok(shares));
        assert forall|j: int| 0 <= j < shares.len() implies slot_of(shares, j) == slots@[j] as int by {
            assert(shares[slots@[j] as int].i == j);
            let k = slot_of(shares, j);
            assert(0 <= k < shares.len() && shares[k].i == j);
            if k != slots@[j] as int {
                assert(has_dup_index(shares));
            }
        }
    }

    // 3. Per party, in index order: decode, split, and aggregate the
    //    sub-shares column-wise.
    let ghost tlen: int = if threshold == 0 {
        1int
    } else {
        threshold as int
    };
    let mut agg: Vec<Scalar> = Vec::new();
    for z in 0..n
        invariant
            agg@.len() == z,
            forall|t: int| 0 <= t < z as int ==> (#[trigger] agg@[t]).wf() && agg@[t]@ == 0,
    {
        agg.push(k_from_u64(0));
    }
    let ghost fpoly: Seq<nat> = Seq::new(tlen as nat, |k: int| 0nat);
    proof {
        assert forall|col: int| 0 <= col < n as int implies agg@[col]@ == poly_eval(
            fpoly,
            (col + 1) as nat,
            m,
        ) by {
            lemma_poly_eval_zero(tlen as nat, (col + 1) as nat, m);
        }
    }
    let ghost mut fsum: Seq<nat> = fpoly;
    for j in 0..n
        invariant
            n == shares.len(),
            n <= u16::MAX,
            shares == additive_shares@,
            m == group_order(),
            tlen == (if threshold == 0 {
                1int
            } else {
                threshold as int
            }),
            participant_set_ok(shares),
            forall|t: int| 0 <= t < n as int ==> slot_of(shares, t) == #[trigger] slots@[t] as int,
            slots@.len() == n,
            forall|t: int| 0 <= t < n as int ==> #[trigger] slots@[t] < n,
            forall|t: int| 0 <= t < j as int ==> scalar_str_ok(#[trigger] record_at(shares, t).x_hex@),
            fsum.len() == tlen,
            forall|k: int| 0 <= k < fsum.len() ==> #[trigger] fsum[k] < m,
            fsum[0] == quorum_sum(shares, j as nat, m),
            agg@.len() == n,
            forall|col: int|
                0 <= col < n as int ==> (#[trigger] agg@[col]).wf() && agg@[col]@ == poly_eval(
                    fsum,
                    (col + 1) as nat,
                    m,
                ),
    {
        let rec_idx = slots[j];
        let x = match decode_scalar(additive_shares[rec_idx].x_hex.as_str()) {
            Ok(s) => s,
            Err(e) => {
                proof {
                    assert(record_at(shares, j as int) == shares[slots@[j as int] as int]);
                    assert(!scalar_str_ok(record_at(shares, j as int).x_hex@));
                    assert(e == scalar_str_err(record_at(shares, j as int).x_hex@));
                }
                return Err(e);
            },
        };
        proof {
            assert(record_at(shares, j as int) == shares[slots@[j as int] as int]);
            assert(x@ == scalar_str_val(record_at(shares, j as int).x_hex@));
        }
        let ghost xv = x@;
        let (subs, gc) = generate_shares_inner(x, threshold, n as u16);
        let mut agg2: Vec<Scalar> = Vec::new();
        for col in 0..n
            invariant
                n == shares.len(),
                m == group_order(),
                subs@.len() == n as int,
                forall|t: int|
                    0 <= t < n as int ==> (#[trigger] subs@[t]).wf() && subs@[t]@ == poly_eval(
                        gc@,
                        (t + 1) as nat,
                        m,
                    ),
                agg@.len() == n,
                forall|t: int|
                    0 <= t < n as int ==> (#[trigger] agg@[t]).wf() && agg@[t]@ == poly_eval(
                        fsum,
                        (t + 1) as nat,
                        m,
                    ),
                agg2@.len() == col,
                forall|t: int|
                    0 <= t < col as int ==> (#[trigger] agg2@[t]).wf() && agg2@[t]@ == add_mod(
                        poly_eval(fsum, (t + 1) as nat, m),
                        poly_eval(gc@, (t + 1) as nat, m),
                        m,
                    ),
        {
            agg2.push(k_add(&agg[col], &subs[col]));
        }
        agg = agg2;
        proof {
            let next = poly_add(fsum, gc@, m);
            assert(next.len() == tlen);
            assert forall|k: int| 0 <= k < next.len() implies #[trigger] next[k] < m by {
                lemma_mod_bound((fsum[k] + gc@[k]) as int, m as int);
            }
            assert(next[0] == add_mod(fsum[0], xv, m));
            assert forall|col: int| 0 <= col < n as int implies (#[trigger] agg@[col])@
                == poly_eval(next, (col + 1) as nat, m) by {
                lemma_poly_eval_add(fsum, gc@, (col + 1) as nat, m);
            }
            fsum = next;
            assert(fsum[0] == quorum_sum(shares, (j + 1) as nat, m));
        }
    }

    // 4. Re-encode into fresh records, threshold updated.
    let mut out: Vec<PortableKeyShare> = Vec::new();
    for j in 0..n
        invariant
            n == shares.len(),
            n <= u16::MAX,
            shares == additive_shares@,
            m == group_order(),
            forall|t: int| 0 <= t < n as int ==> slot_of(shares, t) == #[trigger] slots@[t] as int,
            slots@.len() == n,
            forall|t: int| 0 <= t < n as int ==> #[trigger] slots@[t] < n,
            agg@.len() == n,
            forall|col: int|
                0 <= col < n as int ==> (#[trigger] agg@[col]).wf() && agg@[col]@ == poly_eval(
                    fsum,
                    (col + 1) as nat,
                    m,
                ),
            out@.len() == j,
            forall|t: int|
                #![trigger out@[t]]
                0 <= t < j as int ==> {
                    &&& out@[t].i as int == t
                    &&& out@[t].t == threshold
                    &&& out@[t].n == record_at(shares, t).n
                    &&& out@[t].y_hex@ == record_at(shares, t).y_hex@
                    &&& out@[t].x_hex@ == scalar_hex(poly_eval(fsum, (t + 1) as nat, m))
                },
    {
        let rec_idx = slots[j];
        let x_hex = encode_scalar(&agg[j]);
        let y_hex = additive_shares[rec_idx].y_hex.clone();
        let n_field = additive_shares[rec_idx].n;
        out.push(PortableKeyShare { i: j as u16, t: threshold, n: n_field, x_hex, y_hex });
        proof {
            assert(record_at(shares, j as int) == shares[slots@[j as int] as int]);
        }
    }
    proof {
        assert(participant_set_ok(additive_shares@));
        assert(forall|j: int|
            0 <= j < additive_shares@.len() as int ==> scalar_str_ok(
                #[trigger] record_at(additive_shares@, j).x_hex@,
            ));
        assert(reshare_witness(additive_shares@, threshold, out@, fsum));
        assert((Ok::<Vec<PortableKeyShare>, BridgeError>(out))->Ok_0 == out);
        assert(reshare_post(additive_shares@, threshold, Ok(out)));
    }
    Ok(out)
}

} // verus!
