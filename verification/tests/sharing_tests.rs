use share_bridge::codec::decode_point;
use share_bridge::codec::decode_scalar;
use share_bridge::codec::encode_point;
use share_bridge::codec::encode_scalar;
use share_bridge::convert::additive_portable_to_shamir_portable;
use share_bridge::convert::generate_resharing_polynomial;
use share_bridge::convert::shamir_portable_to_additive_portable;
use share_bridge::error::BridgeError;
use share_bridge::math::calculate_lagrange_coefficient;
use share_bridge::math::generate_polynomial_shares;
use share_bridge::party_point;
use share_bridge::point::scalar_commitment;
use share_bridge::reconstruct::evaluate_commitments;
use share_bridge::reconstruct::reconstruct_global_params;
use share_bridge::scalar::scalar_add;
use share_bridge::scalar::scalar_from_u64;
use share_bridge::scalar::Scalar;
use share_bridge::share::PortableKeyShare;

const ORDER_MINUS_ONE_HEX: &str =
    "fffffffffffffffffffffffffffffffebaaedce6af48a03bbfd25e8cd0364140";

/// Shamir records for a fresh random sharing of `secret` with the given
/// threshold: record `i` carries the polynomial's value at `i + 1`.
fn shamir_records(secret: u64, t: u16, n: u16) -> Vec<PortableKeyShare> {
    let s = scalar_from_u64(secret);
    let y_hex = encode_point(&scalar_commitment(&s));
    let shares = generate_polynomial_shares(s, t, n);
    shares
        .iter()
        .enumerate()
        .map(|(i, x)| PortableKeyShare {
            i: i as u16,
            t,
            n,
            x_hex: encode_scalar(x),
            y_hex: y_hex.clone(),
        })
        .collect()
}

fn sum_shares(hexes: &[&str]) -> Scalar {
    let mut acc = scalar_from_u64(0);
    for h in hexes {
        let s = decode_scalar(h).unwrap();
        acc = scalar_add(&acc, &s);
    }
    acc
}

#[test]
fn lagrange_concrete_weights() {
    // two points {1, 2}: weight of 1 is 2/(2-1) = 2, weight of 2 is 1/(1-2) = -1
    let l1 = calculate_lagrange_coefficient(1, &[1, 2]).unwrap();
    assert_eq!(l1, scalar_from_u64(2));
    let l2 = calculate_lagrange_coefficient(2, &[1, 2]).unwrap();
    assert_eq!(encode_scalar(&l2), ORDER_MINUS_ONE_HEX);
}

#[test]
fn lagrange_rejects_duplicates() {
    assert_eq!(
        calculate_lagrange_coefficient(1, &[1, 2, 2]),
        Err(BridgeError::DuplicatePoint)
    );
}

#[test]
fn trivial_threshold_share_is_secret() {
    // t = 1: the polynomial is constant, so every share equals the secret
    let s = scalar_from_u64(41);
    let shares = generate_polynomial_shares(s, 1, 4);
    assert_eq!(shares.len(), 4);
    for share in &shares {
        assert_eq!(encode_scalar(share), encode_scalar(&scalar_from_u64(41)));
    }
}

#[test]
fn reconstruction_recovers_commitment_from_any_quorum() {
    // any t-subset must interpolate back to secret·G as the first commitment
    let records = shamir_records(7, 3, 5);
    let expected_c0 = encode_point(&scalar_commitment(&scalar_from_u64(7)));

    let quorum_a: Vec<PortableKeyShare> = vec![
        records[0].clone(),
        records[1].clone(),
        records[2].clone(),
    ];
    let (commitments_a, publics_a) = reconstruct_global_params(&quorum_a).unwrap();
    assert_eq!(commitments_a.len(), 3);
    assert_eq!(publics_a.len(), 5);
    assert_eq!(commitments_a[0], expected_c0);

    let quorum_b: Vec<PortableKeyShare> = vec![
        records[0].clone(),
        records[2].clone(),
        records[4].clone(),
    ];
    let (commitments_b, _) = reconstruct_global_params(&quorum_b).unwrap();
    assert_eq!(commitments_b[0], expected_c0);
}

#[test]
fn disjoint_quorums_agree_on_commitments() {
    // two quorums with no common party reconstruct the same polynomial
    let records = shamir_records(31, 2, 4);
    let quorum_a: Vec<PortableKeyShare> = records[0..2].to_vec();
    let quorum_b: Vec<PortableKeyShare> = records[2..4].to_vec();
    let (ca, _) = reconstruct_global_params(&quorum_a).unwrap();
    let (cb, _) = reconstruct_global_params(&quorum_b).unwrap();
    assert_eq!(ca, cb);
}

#[test]
fn reconstruction_with_minimum_quorum() {
    // n == t: every party is required, and reconstruction still succeeds
    let records = shamir_records(11, 3, 3);
    let (commitments, publics) = reconstruct_global_params(&records).unwrap();
    assert_eq!(publics.len(), 3);
    assert_eq!(
        commitments[0],
        encode_point(&scalar_commitment(&scalar_from_u64(11)))
    );
}

#[test]
fn public_shares_match_commitment_evaluation() {
    // public_share[k] == sum over j of C_j * (k+1)^j, recomputed directly
    let records = shamir_records(9, 3, 5);
    let quorum: Vec<PortableKeyShare> = records[0..3].to_vec();
    let (commitments, publics) = reconstruct_global_params(&quorum).unwrap();
    let points: Vec<k256::ProjectivePoint> = commitments
        .iter()
        .map(|c| decode_point(c).unwrap())
        .collect();
    for k in 0..5u16 {
        let direct = evaluate_commitments(&points, party_point(k));
        assert_eq!(encode_point(&direct), publics[k as usize]);
    }
    // the party's public share matches the commitment to its secret share
    for k in 0..3u16 {
        let x = decode_scalar(&records[k as usize].x_hex).unwrap();
        assert_eq!(
            encode_point(&scalar_commitment(&x)),
            publics[k as usize]
        );
    }
}

#[test]
fn reconstruction_needs_a_quorum() {
    let records = shamir_records(7, 3, 5);
    let too_few: Vec<PortableKeyShare> = records[0..2].to_vec();
    assert_eq!(
        reconstruct_global_params(&too_few),
        Err(BridgeError::InsufficientShares {
            required: 3,
            actual: 2
        })
    );
    let none: Vec<PortableKeyShare> = Vec::new();
    assert_eq!(reconstruct_global_params(&none), Err(BridgeError::EmptyInput));
}

#[test]
fn reconstruction_rejects_duplicate_coordinates() {
    let records = shamir_records(7, 2, 3);
    let dup: Vec<PortableKeyShare> = vec![
        records[0].clone(),
        records[0].clone(),
        records[1].clone(),
    ];
    assert_eq!(
        reconstruct_global_params(&dup),
        Err(BridgeError::FieldInversionFailure)
    );
}

#[test]
fn shamir_to_additive_round_trip_full_quorum() {
    // converting every share to additive over the full quorum sums to the secret
    let records = shamir_records(7, 2, 3);
    let indices: Vec<u64> = vec![1, 2, 3];
    let additive: Vec<PortableKeyShare> = records
        .iter()
        .map(|r| shamir_portable_to_additive_portable(r.clone(), &indices).unwrap())
        .collect();
    for (i, a) in additive.iter().enumerate() {
        assert_eq!(a.i as usize, i);
        assert_eq!(a.t, 3);
        assert_eq!(a.n, 3);
    }
    let hexes: Vec<&str> = additive.iter().map(|a| a.x_hex.as_str()).collect();
    assert_eq!(sum_shares(&hexes), scalar_from_u64(7));
}

#[test]
fn shamir_to_additive_round_trip_subset_quorum() {
    // a t-subset carries the secret on its own with its own coefficients
    let records = shamir_records(23, 2, 3);
    let indices: Vec<u64> = vec![1, 3];
    let a0 = shamir_portable_to_additive_portable(records[0].clone(), &indices).unwrap();
    let a2 = shamir_portable_to_additive_portable(records[2].clone(), &indices).unwrap();
    assert_eq!(sum_shares(&[a0.x_hex.as_str(), a2.x_hex.as_str()]), scalar_from_u64(23));
}

#[test]
fn shamir_to_additive_propagates_errors() {
    let mut record = shamir_records(7, 2, 3)[0].clone();
    assert_eq!(
        shamir_portable_to_additive_portable(record.clone(), &[1, 1, 2]),
        Err(BridgeError::DuplicatePoint)
    );
    record.x_hex = String::from("not hex");
    assert_eq!(
        shamir_portable_to_additive_portable(record, &[1, 2, 3]),
        Err(BridgeError::MalformedHex)
    );
}

fn additive_records(values: &[u64]) -> Vec<PortableKeyShare> {
    let n = values.len() as u16;
    let mut sum = scalar_from_u64(0);
    for v in values {
        sum = scalar_add(&sum, &scalar_from_u64(*v));
    }
    let y_hex = encode_point(&scalar_commitment(&sum));
    values
        .iter()
        .enumerate()
        .map(|(i, v)| PortableKeyShare {
            i: i as u16,
            t: n,
            n,
            x_hex: encode_scalar(&scalar_from_u64(*v)),
            y_hex: y_hex.clone(),
        })
        .collect()
}

#[test]
fn resharing_preserves_the_secret() {
    // additive shares 1 + 2 + 4 = 7; after resharing, any t-subset of the
    // new Shamir shares reconstructs commitments to the same secret
    let additive = additive_records(&[1, 2, 4]);
    let reshared = additive_portable_to_shamir_portable(additive, 2).unwrap();
    assert_eq!(reshared.len(), 3);
    for (j, r) in reshared.iter().enumerate() {
        assert_eq!(r.i as usize, j);
        assert_eq!(r.t, 2);
        assert_eq!(r.n, 3);
    }
    let expected_c0 = encode_point(&scalar_commitment(&scalar_from_u64(7)));
    let quorum: Vec<PortableKeyShare> = reshared[1..3].to_vec();
    let (commitments, _) = reconstruct_global_params(&quorum).unwrap();
    assert_eq!(commitments[0], expected_c0);

    // and converting the new shares back to additive recovers the secret
    let indices: Vec<u64> = vec![1, 2];
    let b0 = shamir_portable_to_additive_portable(reshared[0].clone(), &indices).unwrap();
    let b1 = shamir_portable_to_additive_portable(reshared[1].clone(), &indices).unwrap();
    assert_eq!(sum_shares(&[b0.x_hex.as_str(), b1.x_hex.as_str()]), scalar_from_u64(7));
}

#[test]
fn resharing_requires_a_dense_index_space() {
    let mut dup = additive_records(&[1, 2, 4]);
    dup[1].i = 0;
    assert_eq!(
        additive_portable_to_shamir_portable(dup, 2),
        Err(BridgeError::MismatchedParticipantSet)
    );
    let mut gap = additive_records(&[1, 2, 4]);
    gap[2].i = 5;
    assert_eq!(
        additive_portable_to_shamir_portable(gap, 2),
        Err(BridgeError::MismatchedParticipantSet)
    );
}

#[test]
fn resharing_polynomial_with_trivial_threshold() {
    // t <= 1 keeps the polynomial constant: every sub-share is the secret
    let subs = generate_resharing_polynomial("07", 1, 4).unwrap();
    assert_eq!(subs.len(), 4);
    let expected = encode_scalar(&scalar_from_u64(7));
    for s in &subs {
        assert_eq!(s, &expected);
    }
}

#[test]
fn resharing_polynomial_propagates_codec_errors() {
    assert_eq!(
        generate_resharing_polynomial("xyz", 2, 3),
        Err(BridgeError::MalformedHex)
    );
    let long = "11".repeat(33);
    assert_eq!(
        generate_resharing_polynomial(&long, 2, 3),
        Err(BridgeError::ScalarTooLong)
    );
}

#[test]
fn resharing_subshares_reconstruct_each_share() {
    // the sub-shares of one additive share are a valid Shamir sharing of it
    let subs = generate_resharing_polynomial("05", 2, 3).unwrap();
    let l1 = calculate_lagrange_coefficient(1, &[1, 2]).unwrap();
    let l2 = calculate_lagrange_coefficient(2, &[1, 2]).unwrap();
    let s1 = decode_scalar(&subs[0]).unwrap();
    let s2 = decode_scalar(&subs[1]).unwrap();
    let w1 = share_bridge::scalar::scalar_mul(&s1, &l1);
    let w2 = share_bridge::scalar::scalar_mul(&s2, &l2);
    assert_eq!(scalar_add(&w1, &w2), scalar_from_u64(5));
}
