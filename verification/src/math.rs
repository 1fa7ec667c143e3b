//! The mathematical primitives: Lagrange interpolation weights and
//! polynomial share generation over the scalar field.
//!
//! `calculate_lagrange_coefficient` turns a Shamir share into its additive
//! weight for a chosen quorum; `generate_polynomial_shares` splits a secret
//! along a random polynomial. Both carry exact contracts over the spec
//! functions below.

use vstd::prelude::*;
use vstd::slice::slice_index_get;
use vstd::arithmetic::div_mod::lemma_small_mod;
use vstd::arithmetic::div_mod::lemma_mod_add_multiples_vanish;
use vstd::arithmetic::div_mod::lemma_add_mod_noop;
use vstd::arithmetic::div_mod::lemma_add_mod_noop_right;
use vstd::arithmetic::div_mod::lemma_mul_mod_noop_left;
use vstd::arithmetic::div_mod::lemma_mul_mod_noop_right;
use crate::modring::lemma_sub_then_add;
use vstd::arithmetic::mul::lemma_mul_is_commutative;
use vstd::arithmetic::mul::lemma_mul_is_distributive_add_other_way;
use crate::error::BridgeError;
use crate::modring::add_mod;
use crate::modring::sub_mod;
use crate::modring::mul_mod;
use crate::modring::inv_mod;
use crate::modring::lemma_inv_mod_unique;
use crate::modring::lemma_sub_mod_zero_iff;
use crate::modring::lemma_mod_add_cong;
use crate::scalar::group_order;
use crate::scalar::Scalar;
use crate::scalar::k_from_u64;
use crate::scalar::k_sub;
use crate::scalar::k_mul;
use crate::scalar::k_add;
use crate::scalar::k_invert;
use crate::scalar::k_random;

verus! {

broadcast use crate::scalar::lemma_scalar_wf_bound;

/// `x^e` modulo `m`.
pub open spec fn pow_mod(x: nat, e: nat, m: nat) -> nat
    decreases e,
{
    if e == 0 {
        1nat % m
    } else {
        (x * pow_mod(x, (e - 1) as nat, m)) % m
    }
}

/// The value at `x` of the polynomial with coefficient sequence `c`
/// (constant term first), modulo `m`.
pub open spec fn poly_eval(c: Seq<nat>, x: nat, m: nat) -> nat
    decreases c.len(),
{
    if c.len() == 0 {
        0
    } else {
        (poly_eval(c.drop_last(), x, m) + c.last() * pow_mod(x, (c.len() - 1) as nat, m)) % m
    }
}

/// A polynomial's value is always reduced.
pub proof fn lemma_poly_eval_bound(c: Seq<nat>, x: nat, m: nat)
    requires
        m >= 1,
    ensures
        poly_eval(c, x, m) < m,
{
    if c.len() == 0 {
    } else {
        vstd::arithmetic::div_mod::lemma_mod_bound(
            (poly_eval(c.drop_last(), x, m) + c.last() * pow_mod(x, (c.len() - 1) as nat, m)) as int,
            m as int,
        );
    }
}

/// Pointwise sum of two coefficient sequences of equal length.
pub open spec fn poly_add(a: Seq<nat>, b: Seq<nat>, m: nat) -> Seq<nat> {
    Seq::new(a.len(), |i: int| add_mod(a[i], b[i], m))
}

/// Evaluation is linear: the sum polynomial evaluates to the sum of the
/// evaluations. This is the identity the resharing engine rests on.
pub proof fn lemma_poly_eval_add(a: Seq<nat>, b: Seq<nat>, x: nat, m: nat)
    requires
        a.len() == b.len(),
        m > 0,
    ensures
        poly_eval(poly_add(a, b, m), x, m) == add_mod(poly_eval(a, x, m), poly_eval(b, x, m), m),
    decreases a.len(),
{
    let s = poly_add(a, b, m);
    if a.len() == 0 {
        assert(s.len() == 0);
        assert(0nat % m == 0) by {
            lemma_small_mod(0, m);
        }
    } else {
        let p = pow_mod(x, (a.len() - 1) as nat, m);
        let ea = poly_eval(a.drop_last(), x, m);
        let eb = poly_eval(b.drop_last(), x, m);
        let v = (a.last() + b.last()) as nat;
        assert(s.drop_last() =~= poly_add(a.drop_last(), b.drop_last(), m));
        assert(s.last() == (v % m));
        lemma_poly_eval_add(a.drop_last(), b.drop_last(), x, m);
        assert(poly_eval(s.drop_last(), x, m) == ((ea + eb) as nat) % m);
        // left side: reduce the leading summand and the factor of `p`
        crate::modring::lemma_add_mod_left((ea + eb) as nat, ((v % m) * p) as nat, m);
        lemma_mul_mod_noop_left(v as int, p as int, m as int);
        lemma_mod_add_cong(((v % m) * p) as nat, (v * p) as nat, (ea + eb) as nat, m);
        assert(poly_eval(s, x, m) == ((ea + eb) + v * p) % m);
        // right side: both evaluations are reduced sums
        lemma_add_mod_noop((ea + a.last() * p) as int, (eb + b.last() * p) as int, m as int);
        lemma_mul_is_distributive_add_other_way(p as int, a.last() as int, b.last() as int);
        assert((ea + a.last() * p) + (eb + b.last() * p) == (ea + eb) + v * p);
    }
}

/// One synthetic-division step at fixed width: the coefficients of
/// `p · (X - a)` with the top term cut off.
pub open spec fn poly_mul_linear(p: Seq<nat>, a: nat, m: nat) -> Seq<nat> {
    Seq::new(
        p.len(),
        |k: int|
            if k == 0 {
                sub_mod(0, mul_mod(a, p[0], m), m)
            } else {
                sub_mod(p[k - 1], mul_mod(a, p[k], m), m)
            },
    )
}

/// A synthetic-division step multiplies a polynomial's value by `(x - a)`,
/// up to the term the fixed width cuts off:
/// `eval(p·(X-a)) + p_top·x^len == (x - a)·eval(p)` modulo `m`.
pub proof fn lemma_poly_eval_mul_linear(p: Seq<nat>, a: nat, x: nat, m: nat)
    requires
        p.len() >= 1,
        m >= 2,
        a < m,
        x < m,
        forall|k: int| 0 <= k < p.len() ==> #[trigger] p[k] < m,
    ensures
        add_mod(
            poly_eval(poly_mul_linear(p, a, m), x, m),
            mul_mod(p.last(), pow_mod(x, p.len(), m), m),
            m,
        ) == mul_mod(sub_mod(x, a, m), poly_eval(p, x, m), m),
    decreases p.len(),
{
    let q = poly_mul_linear(p, a, m);
    let d = sub_mod(x, a, m);
    let p1 = p.last();
    lemma_sub_then_add(x, a, m);
    assert((d + a) % m == x);
    vstd::arithmetic::div_mod::lemma_mod_bound((x * pow_mod(x, (p.len() - 1) as nat, m)) as int, m as int);
    if p.len() == 1 {
        assert(q.len() == 1);
        assert(q.drop_last() =~= Seq::<nat>::empty());
        assert(q.last() == sub_mod(0, mul_mod(a, p[0], m), m));
        let q0 = q.last();
        assert(1nat % m == 1) by {
            lemma_small_mod(1, m);
        }
        assert(pow_mod(x, 0, m) == 1);
        vstd::arithmetic::div_mod::lemma_mod_bound(((0 + m) - ((a * p[0]) % m)) as int, m as int);
        assert(q0 < m);
        assert(poly_eval(Seq::<nat>::empty(), x, m) == 0);
        assert(poly_eval(q, x, m) == (0 + q0 * pow_mod(x, 0, m)) % m);
        assert(q0 * 1nat == q0);
        lemma_small_mod(q0, m);
        assert(poly_eval(q, x, m) == q0);
        assert(p.drop_last() =~= Seq::<nat>::empty());
        assert(poly_eval(p, x, m) == (0 + p[0] * pow_mod(x, 0, m)) % m);
        assert(p[0] * 1nat == p[0]);
        lemma_small_mod(p[0], m);
        assert(poly_eval(p, x, m) == p[0]);
        assert(pow_mod(x, 1, m) == (x * pow_mod(x, 0, m)) % m);
        assert(x * 1nat == x);
        assert(pow_mod(x, 1, m) == x) by {
            lemma_small_mod(x, m);
        }
        // eval(q) + p0·x == q0 + p0·(d + a) == (q0 + a·p0) + d·p0 == d·p0
        lemma_add_mod_noop_right(q0 as int, (p[0] * x) as int, m as int);
        lemma_mul_mod_noop_right(p[0] as int, (d + a) as int, m as int);
        lemma_mod_add_cong((p[0] * x) as nat, (p[0] * ((d + a) as nat)) as nat, q0, m);
        assert((q0 + p[0] * x) % m == (q0 + p[0] * ((d + a) as nat)) % m);
        vstd::arithmetic::mul::lemma_mul_is_distributive_add(p[0] as int, d as int, a as int);
        assert(p[0] * ((d + a) as nat) == p[0] * d + p[0] * a);
        // q0 + a·p0 vanishes
        vstd::arithmetic::div_mod::lemma_mod_bound((a * p[0]) as int, m as int);
        lemma_sub_then_add(0, mul_mod(a, p[0], m), m);
        assert((q0 + (a * p[0]) % m) % m == 0) by {
            lemma_small_mod(0, m);
        }
        lemma_add_mod_noop_right(q0 as int, (a * p[0]) as int, m as int);
        assert((q0 + a * p[0]) % m == 0);
        crate::modring::lemma_add_mod_left((q0 + p[0] * a) as nat, (p[0] * d) as nat, m);
        assert((q0 + p[0] * a + p[0] * d) % m == (((q0 + p[0] * a) % m) + p[0] * d) % m);
        lemma_mul_is_commutative(p[0] as int, a as int);
        lemma_mul_is_commutative(p[0] as int, d as int);
        assert(((0 + d * p[0]) as nat) % m == mul_mod(d, p[0], m));
        lemma_mul_mod_noop_right(d as int, p[0] as int, m as int);
    } else {
        let pp = p.drop_last();
        let llen = (p.len() - 1) as nat;
        let pp2 = pp.last();
        let bigp = pow_mod(x, llen, m);
        let bigpl = pow_mod(x, p.len(), m);
        lemma_poly_eval_mul_linear(pp, a, x, m);
        let q2 = poly_mul_linear(pp, a, m);
        assert(q.drop_last() =~= q2);
        let e2 = poly_eval(q2, x, m);
        let ep2 = poly_eval(pp, x, m);
        assert(q.last() == sub_mod(p[p.len() - 2], mul_mod(a, p1, m), m));
        let ql = q.last();
        // F1: ql + a·p1 is congruent to pp2
        vstd::arithmetic::div_mod::lemma_mod_bound((a * p1) as int, m as int);
        lemma_sub_then_add(pp2, mul_mod(a, p1, m), m);
        assert((ql + (a * p1) % m) % m == pp2);
        lemma_add_mod_noop_right(ql as int, (a * p1) as int, m as int);
        assert((ql + a * p1) % m == pp2);
        // unfold both evaluations
        assert(poly_eval(q, x, m) == (e2 + ql * bigp) % m);
        assert(poly_eval(p, x, m) == (ep2 + p1 * bigp) % m);
        // LHS == e2 + ql·P + p1·PL, all under one reduction
        crate::modring::lemma_add_mod_left((e2 + ql * bigp) as nat, ((p1 * bigpl) % m) as nat, m);
        lemma_add_mod_noop_right((e2 + ql * bigp) as int, (p1 * bigpl) as int, m as int);
        assert(add_mod(poly_eval(q, x, m), mul_mod(p1, bigpl, m), m) == (e2 + ql * bigp + p1
            * bigpl) % m);
        // p1·PL is congruent to p1·x·P
        assert(bigpl == (x * bigp) % m);
        lemma_mul_mod_noop_right(p1 as int, (x * bigp) as int, m as int);
        vstd::arithmetic::mul::lemma_mul_is_associative(p1 as int, x as int, bigp as int);
        lemma_mod_add_cong(
            (p1 * bigpl) as nat,
            (p1 * x * bigp) as nat,
            (e2 + ql * bigp) as nat,
            m,
        );
        // p1·x·P is congruent to p1·(d + a)·P == p1·d·P + p1·a·P
        lemma_mul_mod_noop_left((p1 * x) as int, bigp as int, m as int);
        lemma_mul_mod_noop_right(p1 as int, x as int, m as int);
        lemma_mul_mod_noop_right(p1 as int, (d + a) as int, m as int);
        assert((p1 * x) % m == (p1 * ((d + a) as nat)) % m);
        lemma_mul_mod_noop_left((p1 * ((d + a) as nat)) as int, bigp as int, m as int);
        assert((p1 * x * bigp) % m == ((p1 * ((d + a) as nat)) * bigp) % m);
        vstd::arithmetic::mul::lemma_mul_is_distributive_add(p1 as int, d as int, a as int);
        vstd::arithmetic::mul::lemma_mul_is_distributive_add_other_way(
            bigp as int,
            (p1 * d) as int,
            (p1 * a) as int,
        );
        assert((p1 * ((d + a) as nat)) * bigp == p1 * d * bigp + p1 * a * bigp);
        lemma_mod_add_cong(
            (p1 * x * bigp) as nat,
            (p1 * d * bigp + p1 * a * bigp) as nat,
            (e2 + ql * bigp) as nat,
            m,
        );
        assert((e2 + ql * bigp + p1 * bigpl) % m == (e2 + ql * bigp + p1 * a * bigp + p1 * d
            * bigp) % m);
        // ql·P + p1·a·P collapses to pp2·P
        vstd::arithmetic::mul::lemma_mul_is_distributive_add_other_way(
            bigp as int,
            ql as int,
            (a * p1) as int,
        );
        lemma_mul_is_commutative(a as int, p1 as int);
        assert(ql * bigp + p1 * a * bigp == ((ql + a * p1) as nat) * bigp);
        lemma_mul_mod_noop_left(((ql + a * p1) as nat) as int, bigp as int, m as int);
        lemma_mul_mod_noop_left(pp2 as int, bigp as int, m as int);
        assert((((ql + a * p1) as nat) * bigp) % m == (pp2 * bigp) % m);
        lemma_mod_add_cong(
            (ql * bigp + p1 * a * bigp) as nat,
            (pp2 * bigp) as nat,
            (e2 + p1 * d * bigp) as nat,
            m,
        );
        assert((e2 + ql * bigp + p1 * a * bigp + p1 * d * bigp) % m == (e2 + pp2 * bigp + p1 * d
            * bigp) % m);
        // the inductive hypothesis folds e2 + pp2·P into d·eval(pp)
        lemma_add_mod_noop_right(e2 as int, (pp2 * bigp) as int, m as int);
        assert((e2 + (pp2 * bigp) % m) % m == (d * ep2) % m);
        assert((e2 + pp2 * bigp) % m == (d * ep2) % m);
        lemma_mod_add_cong(
            (e2 + pp2 * bigp) as nat,
            (d * ep2) as nat,
            (p1 * d * bigp) as nat,
            m,
        );
        assert((e2 + pp2 * bigp + p1 * d * bigp) % m == (d * ep2 + p1 * d * bigp) % m);
        // factor d out and fold the right-hand evaluation back in
        lemma_mul_is_commutative(p1 as int, d as int);
        vstd::arithmetic::mul::lemma_mul_is_associative(d as int, p1 as int, bigp as int);
        vstd::arithmetic::mul::lemma_mul_is_distributive_add(d as int, ep2 as int, (p1
            * bigp) as int);
        assert(d * ep2 + p1 * d * bigp == d * ((ep2 + p1 * bigp) as nat));
        lemma_mul_mod_noop_right(d as int, (ep2 + p1 * bigp) as int, m as int);
        assert((d * ((ep2 + p1 * bigp) as nat)) % m == (d * (((ep2 + p1 * bigp) as nat) % m)) % m);
        assert(mul_mod(d, poly_eval(p, x, m), m) == (d * (((ep2 + p1 * bigp) as nat) % m)) % m);
    }
}

/// The zero polynomial evaluates to zero everywhere.
pub proof fn lemma_poly_eval_zero(len: nat, x: nat, m: nat)
    requires
        m > 0,
    ensures
        poly_eval(Seq::new(len, |k: int| 0nat), x, m) == 0,
    decreases len,
{
    let s = Seq::new(len, |k: int| 0nat);
    if len == 0 {
        assert(s =~= Seq::<nat>::empty());
    } else {
        assert(s.drop_last() =~= Seq::new((len - 1) as nat, |k: int| 0nat));
        lemma_poly_eval_zero((len - 1) as nat, x, m);
        assert(s.last() == 0);
        assert(poly_eval(s, x, m) == (0nat + 0nat * pow_mod(x, (len - 1) as nat, m)) % m);
        lemma_small_mod(0, m);
    }
}

/// Some coordinate occurs twice.
pub open spec fn has_dup(pts: Seq<u64>) -> bool {
    exists|i: int, j: int|
        0 <= i < j < pts.len() && #[trigger] pts[i] == #[trigger] pts[j]
}

/// The Lagrange interpolation weight of the point `my` over the coordinate
/// set `pts`, evaluated at zero: the product over all other points `x_j` of
/// `x_j / (x_j - my)` modulo `m`.
pub open spec fn lagrange_weight(my: nat, pts: Seq<u64>, m: nat) -> nat
    decreases pts.len(),
{
    if pts.len() == 0 {
        1nat % m
    } else {
        let prev = lagrange_weight(my, pts.drop_last(), m);
        let xj = pts.last() as nat;
        if xj == my {
            prev
        } else {
            mul_mod(prev, mul_mod(xj, inv_mod(sub_mod(xj, my, m), m), m), m)
        }
    }
}

/// Computes the Lagrange coefficient of `party_index` over the 1-based
/// coordinate set `all_indices`.
///
/// Fails with `DuplicatePoint` exactly when a coordinate repeats; given
/// distinct coordinates every denominator is a nonzero field element, so the
/// defensive `SingularDenominator` check can never fire.
pub fn calculate_lagrange_coefficient(party_index: u64, all_indices: &[u64]) -> (r: Result<
    Scalar,
    BridgeError,
>)
    ensures
        r is Ok <==> !has_dup(all_indices@),
        r matches Ok(lambda) ==> lambda.wf() && lambda@ == lagrange_weight(
            party_index as nat,
            all_indices@,
            group_order(),
        ),
        r matches Err(e) ==> e == BridgeError::DuplicatePoint,
{
    let ghost pts = all_indices@;
    let ghost m = group_order();
    let n = all_indices.len();

    // Reject repeated coordinates.
    for a in 0..n
        invariant
            n == pts.len(),
            pts == all_indices@,
            forall|i: int, j: int| 0 <= i < j < n && i < a ==> #[trigger] pts[i] != #[trigger] pts[j],
    {
        for b in (a + 1)..n
            invariant
                n == pts.len(),
                pts == all_indices@,
                a < n,
                a + 1 <= b <= n,
                forall|i: int, j: int|
                    0 <= i < j < n && i < a ==> #[trigger] pts[i] != #[trigger] pts[j],
                forall|j: int| a < j < b ==> pts[a as int] != #[trigger] pts[j],
        {
            if *slice_index_get(all_indices, a) == *slice_index_get(all_indices, b) {
                proof {
                    assert(pts[a as int] == pts[b as int]);
                    assert(has_dup(pts));
                }
                return Err(BridgeError::DuplicatePoint);
            }
        }
    }
    proof {
        assert(!has_dup(pts));
    }

    let my_s = k_from_u64(party_index);
    let mut lambda = k_from_u64(1);
    proof {
        assert(pts.take(0) =~= Seq::<u64>::empty());
        assert(1nat % m == 1) by {
            lemma_small_mod(1, m);
        }
    }
    for j in 0..n
        invariant
            n == pts.len(),
            pts == all_indices@,
            m == group_order(),
            my_s.wf(),
            my_s@ == party_index as nat,
            lambda.wf(),
            lambda@ == lagrange_weight(party_index as nat, pts.take(j as int), m),
    {
        let xj = *slice_index_get(all_indices, j);
        proof {
            assert(pts.take(j + 1).drop_last() =~= pts.take(j as int));
            assert(pts.take(j + 1).last() == pts[j as int]);
        }
        if xj != party_index {
            let xjs = k_from_u64(xj);
            let diff = k_sub(&xjs, &my_s);
            proof {
                // distinct machine integers stay distinct in the field
                let a = xj as nat;
                let b = party_index as nat;
                if a > b {
                    assert((a + m) - b == m + (a - b));
                    lemma_mod_add_multiples_vanish((a - b) as int, m as int);
                    lemma_small_mod((a - b) as nat, m);
                    assert(sub_mod(a, b, m) == a - b);
                } else {
                    assert((a + m) - b == m - (b - a));
                    lemma_small_mod((m - (b - a)) as nat, m);
                    assert(sub_mod(a, b, m) == m - (b - a));
                }
                assert(diff@ != 0);
            }
            let inv = match k_invert(&diff) {
                Some(v) => v,
                None => {
                    return Err(BridgeError::SingularDenominator);
                },
            };
            proof {
                lemma_inv_mod_unique(diff@, inv@, m);
            }
            let term = k_mul(&xjs, &inv);
            lambda = k_mul(&lambda, &term);
        }
    }
    proof {
        assert(pts.take(n as int) =~= pts);
    }
    Ok(lambda)
}

/// Evaluates the polynomial `coeffs` at the points `1..=n`.
fn eval_poly_shares(coeffs: &Vec<Scalar>, n: u16) -> (r: Vec<Scalar>)
    requires
        1 <= coeffs@.len() <= u16::MAX,
        forall|i: int| 0 <= i < coeffs@.len() ==> (#[trigger] coeffs@[i]).wf(),
    ensures
        r@.len() == n as int,
        forall|j: int|
            0 <= j < n as int ==> (#[trigger] r@[j]).wf() && r@[j]@ == poly_eval(
                coeffs.deep_view(),
                (j + 1) as nat,
                group_order(),
            ),
{
    let ghost cv = coeffs.deep_view();
    let ghost m = group_order();
    proof {
        assert(cv.len() == coeffs@.len());
    }
    let mut shares: Vec<Scalar> = Vec::new();
    let nc = coeffs.len();
    for j in 0..n
        invariant
            nc == cv.len(),
            1 <= nc <= u16::MAX,
            cv == coeffs.deep_view(),
            m == group_order(),
            forall|i: int| 0 <= i < coeffs@.len() ==> (#[trigger] coeffs@[i]).wf(),
            shares@.len() == j as int,
            forall|t: int|
                0 <= t < j as int ==> (#[trigger] shares@[t]).wf() && shares@[t]@ == poly_eval(
                    cv,
                    (t + 1) as nat,
                    m,
                ),
    {
        let x = k_from_u64(j as u64 + 1);
        let mut y = k_from_u64(0);
        let mut xp = k_from_u64(1);
        proof {
            assert(cv.take(0) =~= Seq::<nat>::empty());
            assert(1nat % m == 1) by {
                lemma_small_mod(1, m);
            }
        }
        for k in 0..nc
            invariant
                nc == cv.len(),
                cv == coeffs.deep_view(),
                m == group_order(),
                forall|i: int| 0 <= i < coeffs@.len() ==> (#[trigger] coeffs@[i]).wf(),
                x.wf(),
                x@ == j as nat + 1,
                y.wf(),
                y@ == poly_eval(cv.take(k as int), x@, m),
                xp.wf(),
                xp@ == pow_mod(x@, k as nat, m),
        {
            let term = k_mul(coeffs_at(coeffs, k), &xp);
            let y2 = k_add(&y, &term);
            proof {
                let tk = cv.take(k + 1);
                assert(tk.drop_last() =~= cv.take(k as int));
                assert(tk.last() == cv[k as int]);
                assert(cv[k as int] == coeffs@[k as int]@);
                lemma_add_mod_noop_right(
                    poly_eval(cv.take(k as int), x@, m) as int,
                    (cv[k as int] * pow_mod(x@, k as nat, m)) as int,
                    m as int,
                );
                assert(y2@ == poly_eval(tk, x@, m));
            }
            let xp2 = k_mul(&xp, &x);
            proof {
                lemma_mul_is_commutative(xp@ as int, x@ as int);
                assert(xp2@ == pow_mod(x@, (k + 1) as nat, m));
            }
            y = y2;
            xp = xp2;
        }
        proof {
            assert(cv.take(nc as int) =~= cv);
        }
        shares.push(y);
    }
    shares
}

/// Borrow of one coefficient.
fn coeffs_at(coeffs: &Vec<Scalar>, k: usize) -> (r: &Scalar)
    requires
        k < coeffs@.len(),
    ensures
        r == coeffs@[k as int],
        r@ == coeffs.deep_view()[k as int],
{
    &coeffs[k]
}

/// As `generate_polynomial_shares`, and hands back the ghost coefficient
/// sequence of the sampled polynomial for callers that reason across several
/// parties' polynomials.
pub(crate) fn generate_shares_inner(secret: Scalar, threshold: u16, n: u16) -> (r: (
    Vec<Scalar>,
    Ghost<Seq<nat>>,
))
    requires
        secret.wf(),
    ensures
        r.1@.len() == if threshold == 0 {
            1int
        } else {
            threshold as int
        },
        r.1@[0] == secret@,
        forall|k: int| 0 <= k < r.1@.len() ==> #[trigger] r.1@[k] < group_order(),
        r.0@.len() == n as int,
        forall|j: int|
            0 <= j < n as int ==> (#[trigger] r.0@[j]).wf() && r.0@[j]@ == poly_eval(
                r.1@,
                (j + 1) as nat,
                group_order(),
            ),
{
    let degree: usize = if threshold == 0 {
        0
    } else {
        (threshold - 1) as usize
    };
    let ghost sv = secret@;
    let mut coeffs: Vec<Scalar> = Vec::new();
    coeffs.push(secret);
    for _d in 0..degree
        invariant
            coeffs@.len() == _d + 1,
            degree <= u16::MAX,
            coeffs@[0]@ == sv,
            forall|i: int| 0 <= i < coeffs@.len() ==> (#[trigger] coeffs@[i]).wf(),
    {
        coeffs.push(k_random());
    }
    let ghost cv = coeffs.deep_view();
    proof {
        assert(cv.len() == coeffs@.len());
        assert(cv[0] == coeffs@[0]@);
        assert(forall|k: int| 0 <= k < cv.len() ==> #[trigger] cv[k] == coeffs@[k]@);
    }
    let shares = eval_poly_shares(&coeffs, n);
    (shares, Ghost(cv))
}

/// Builds the random polynomial `[secret, r_1, .., r_{t-1}]` and evaluates
/// it at the points `1..=n`.
///
/// The shares returned all lie on one polynomial of degree `max(t,1) - 1`
/// whose constant term is the secret; with `t <= 1` the polynomial is
/// constant and every share equals the secret. There is no failure path.
pub fn generate_polynomial_shares(secret: Scalar, threshold: u16, n: u16) -> (r: Vec<Scalar>)
    requires
        secret.wf(),
    ensures
        r@.len() == n as int,
        forall|j: int| 0 <= j < n as int ==> (#[trigger] r@[j]).wf(),
        exists|c: Seq<nat>|
            {
                &&& c.len() == if threshold == 0 {
                    1int
                } else {
                    threshold as int
                }
                &&& c[0] == secret@
                &&& (forall|k: int| 0 <= k < c.len() ==> #[trigger] c[k] < group_order())
                &&& (forall|j: int|
                    0 <= j < n as int ==> (#[trigger] r@[j])@ == poly_eval(
                        c,
                        (j + 1) as nat,
                        group_order(),
                    ))
            },
        threshold <= 1 ==> forall|j: int| 0 <= j < n as int ==> (#[trigger] r@[j])@ == secret@,
{
    let ghost sv = secret@;
    let (shares, gc) = generate_shares_inner(secret, threshold, n);
    proof {
        let c = gc@;
        if threshold <= 1 {
            assert forall|j: int| 0 <= j < n as int implies (#[trigger] shares@[j])@ == sv by {
                lemma_poly_eval_constant(c, (j + 1) as nat);
            }
        }
    }
    shares
}

/// A one-coefficient polynomial evaluates to its constant term everywhere.
proof fn lemma_poly_eval_constant(c: Seq<nat>, x: nat)
    requires
        c.len() == 1,
        c[0] < group_order(),
    ensures
        poly_eval(c, x, group_order()) == c[0],
{
    let m = group_order();
    assert(c.drop_last() =~= Seq::<nat>::empty());
    assert(c.last() == c[0]);
    assert(1nat % m == 1) by {
        lemma_small_mod(1, m);
    }
    assert(pow_mod(x, 0, m) == 1);
    assert((c.len() - 1) as nat == 0);
    assert(poly_eval(c.drop_last(), x, m) == 0);
    assert(c.last() * pow_mod(x, (c.len() - 1) as nat, m) == c[0] * 1nat);
    assert(c[0] * 1nat == c[0]);
    assert(poly_eval(c, x, m) == c[0] % m);
    lemma_small_mod(c[0], m);
}

/// Coefficient `k` of the synthetic quotient of `p` by `(X - a)`, built
/// from the top coefficient down.
pub open spec fn quot_at(p: Seq<nat>, a: nat, k: int, m: nat) -> nat
    decreases p.len() - k,
{
    if k < 0 || k >= p.len() - 1 {
        0nat
    } else {
        add_mod(p[k + 1], mul_mod(a, quot_at(p, a, k + 1, m), m), m)
    }
}

/// The synthetic quotient of `p` by `(X - a)`.
pub open spec fn quot_seq(p: Seq<nat>, a: nat, m: nat) -> Seq<nat> {
    Seq::new(p.len(), |k: int| quot_at(p, a, k, m))
}

proof fn lemma_quot_at_bound(p: Seq<nat>, a: nat, k: int, m: nat)
    requires
        m >= 1,
    ensures
        quot_at(p, a, k, m) < m,
    decreases p.len() - k,
{
    if !(k < 0 || k >= p.len() - 1) {
        vstd::arithmetic::div_mod::lemma_mod_bound(
            (p[k + 1] + mul_mod(a, quot_at(p, a, k + 1, m), m)) as int,
            m as int,
        );
    }
}

/// Two polynomials that differ only in the constant term have values that
/// differ by exactly that term.
proof fn lemma_poly_eval_head_diff(p: Seq<nat>, p2: Seq<nat>, x: nat, m: nat)
    requires
        m >= 2,
        p.len() == p2.len(),
        p.len() >= 1,
        p[0] < m,
        p2[0] < m,
        forall|k: int| 1 <= k < p.len() ==> p[k] == #[trigger] p2[k],
    ensures
        add_mod(poly_eval(p2, x, m), p[0], m) == add_mod(poly_eval(p, x, m), p2[0], m),
    decreases p.len(),
{
    if p.len() == 1 {
        assert(p.drop_last() =~= Seq::<nat>::empty());
        assert(p2.drop_last() =~= Seq::<nat>::empty());
        assert(poly_eval(Seq::<nat>::empty(), x, m) == 0);
        assert(1nat % m == 1) by {
            lemma_small_mod(1, m);
        }
        assert(pow_mod(x, 0, m) == 1);
        assert(p.last() == p[0] && p2.last() == p2[0]);
        assert(poly_eval(p, x, m) == (0 + p[0] * 1nat) % m);
        assert(poly_eval(p2, x, m) == (0 + p2[0] * 1nat) % m);
        lemma_small_mod(p[0], m);
        lemma_small_mod(p2[0], m);
    } else {
        lemma_poly_eval_head_diff(p.drop_last(), p2.drop_last(), x, m);
        let e = poly_eval(p.drop_last(), x, m);
        let e2 = poly_eval(p2.drop_last(), x, m);
        assert(p.last() == p2.last());
        let cp = (p.last() * pow_mod(x, (p.len() - 1) as nat, m)) as nat;
        assert(poly_eval(p, x, m) == (e + cp) % m);
        assert(poly_eval(p2, x, m) == (e2 + cp) % m);
        crate::modring::lemma_add_mod_left((e2 + cp) as nat, p[0], m);
        crate::modring::lemma_add_mod_left((e + cp) as nat, p2[0], m);
        assert((e2 + p[0]) % m == (e + p2[0]) % m);
        lemma_mod_add_cong((e2 + p[0]) as nat, (e + p2[0]) as nat, cp, m);
    }
}

/// The factor theorem, constructively: at a root, dividing out `(X - a)`
/// leaves no remainder, so the polynomial is the synthetic quotient times
/// `(X - a)` exactly.
pub proof fn lemma_factor_root(p: Seq<nat>, a: nat, m: nat)
    requires
        m >= 2,
        p.len() >= 1,
        a < m,
        forall|k: int| 0 <= k < p.len() ==> #[trigger] p[k] < m,
        poly_eval(p, a, m) == 0,
    ensures
        poly_mul_linear(quot_seq(p, a, m), a, m) == p,
        quot_seq(p, a, m).last() == 0,
        forall|k: int| 0 <= k < p.len() ==> #[trigger] quot_seq(p, a, m)[k] < m,
{
    let q = quot_seq(p, a, m);
    assert forall|k: int| 0 <= k < p.len() implies #[trigger] q[k] < m by {
        lemma_quot_at_bound(p, a, k, m);
    }
    assert(q.last() == 0);
    let w = poly_mul_linear(q, a, m);
    assert forall|k: int| 1 <= k < p.len() implies #[trigger] w[k] == p[k] by {
        assert(q[k - 1] == add_mod(p[k], mul_mod(a, quot_at(p, a, k, m), m), m));
        vstd::arithmetic::div_mod::lemma_mod_bound((a * quot_at(p, a, k, m)) as int, m as int);
        crate::modring::lemma_add_then_sub(p[k], mul_mod(a, quot_at(p, a, k, m), m), m);
        assert(q[k] == quot_at(p, a, k, m));
    }
    lemma_poly_eval_mul_linear(q, a, a, m);
    lemma_sub_mod_zero_iff(a, a, m);
    lemma_small_mod(0, m);
    assert(mul_mod(sub_mod(a, a, m), poly_eval(q, a, m), m) == 0);
    assert(mul_mod(q.last(), pow_mod(a, q.len(), m), m) == 0);
    assert(add_mod(poly_eval(w, a, m), 0, m) == 0);
    lemma_poly_eval_bound(w, a, m);
    lemma_small_mod(poly_eval(w, a, m), m);
    assert(poly_eval(w, a, m) == 0);
    assert(w[0] < m) by {
        vstd::arithmetic::div_mod::lemma_mod_bound(
            ((0 + m) - mul_mod(a, q[0], m)) as int,
            m as int,
        );
    }
    lemma_poly_eval_head_diff(p, w, a, m);
    assert(add_mod(0, p[0], m) == add_mod(0, w[0], m));
    lemma_small_mod(p[0], m);
    lemma_small_mod(w[0], m);
    assert(w[0] == p[0]);
    assert(w =~= p);
}

/// A reduced polynomial with at least as many roots as coefficients — the
/// roots' pairwise differences all invertible — is the zero polynomial:
/// each root divides out one factor until no degree is left.
pub proof fn lemma_roots_force_zero(p: Seq<nat>, roots: Seq<nat>, m: nat)
    requires
        m >= 2,
        forall|k: int| 0 <= k < p.len() ==> #[trigger] p[k] < m,
        forall|l: int| 0 <= l < roots.len() ==> #[trigger] roots[l] < m,
        p.len() <= roots.len(),
        forall|l: int| 0 <= l < roots.len() ==> poly_eval(p, #[trigger] roots[l], m) == 0,
        forall|i: int, l: int|
            0 <= i < roots.len() && 0 <= l < roots.len() && i != l ==> mul_mod(
                sub_mod(#[trigger] roots[i], #[trigger] roots[l], m),
                inv_mod(sub_mod(roots[i], roots[l], m), m),
                m,
            ) == 1,
    ensures
        forall|k: int| 0 <= k < p.len() ==> #[trigger] p[k] == 0,
    decreases p.len(),
{
    if p.len() == 0 {
    } else {
        let a = roots.last();
        assert(poly_eval(p, a, m) == 0);
        lemma_factor_root(p, a, m);
        let q = quot_seq(p, a, m);
        let q2 = q.drop_last();
        assert forall|l: int| 0 <= l < roots.len() - 1 implies poly_eval(
            q2,
            #[trigger] roots[l],
            m,
        ) == 0 by {
            let b = roots[l];
            lemma_poly_eval_mul_linear(q, a, b, m);
            lemma_small_mod(0, m);
            assert(mul_mod(q.last(), pow_mod(b, q.len(), m), m) == 0);
            assert(poly_eval(poly_mul_linear(q, a, m), b, m) == 0);
            assert(add_mod(0, 0, m) == 0);
            let f = sub_mod(b, a, m);
            let g = inv_mod(f, m);
            let e = poly_eval(q, b, m);
            assert(mul_mod(f, g, m) == 1);
            assert(mul_mod(f, e, m) == 0);
            // multiply by the inverse of the factor
            assert(mul_mod(g, mul_mod(f, e, m), m) == 0) by {
                lemma_small_mod(0, m);
            }
            lemma_mul_mod_noop_right(g as int, (f * e) as int, m as int);
            assert((g * (f * e)) == (g * f) * e) by (nonlinear_arith);
            lemma_mul_mod_noop_left((g * f) as int, e as int, m as int);
            lemma_mul_is_commutative(g as int, f as int);
            assert(((g * f) * e) % m == ((1nat) * e) % m) by {
                lemma_mul_mod_noop_left((f * g) as int, e as int, m as int);
            }
            lemma_poly_eval_bound(q, b, m);
            lemma_small_mod(e, m);
            assert(e == 0);
            // the quotient's top coefficient is zero, so the trimmed
            // quotient evaluates the same
            assert(q.drop_last() == q2);
            assert(poly_eval(q, b, m) == (poly_eval(q2, b, m) + 0nat * pow_mod(
                b,
                (q.len() - 1) as nat,
                m,
            )) % m);
            lemma_poly_eval_bound(q2, b, m);
            lemma_small_mod(poly_eval(q2, b, m), m);
        }
        lemma_roots_force_zero(q2, roots.drop_last(), m);
        assert forall|k: int| 0 <= k < p.len() implies #[trigger] p[k] == 0 by {
            assert(p[k] == poly_mul_linear(q, a, m)[k]);
            assert forall|k2: int| 0 <= k2 < q.len() implies #[trigger] q[k2] == 0 by {
                if k2 < q.len() - 1 {
                    assert(q2[k2] == 0);
                } else {
                    assert(q.last() == 0);
                }
            }
            lemma_small_mod(0, m);
            assert(mul_mod(a, 0, m) == 0);
            vstd::arithmetic::div_mod::lemma_mod_self_0(m as int);
            assert(sub_mod(0, 0, m) == 0);
            if k == 0 {
                assert(poly_mul_linear(q, a, m)[0] == sub_mod(0, mul_mod(a, q[0], m), m));
            } else {
                assert(poly_mul_linear(q, a, m)[k] == sub_mod(q[k - 1], mul_mod(a, q[k], m), m));
            }
        }
    }
}

} // verus!
