//! Arithmetic modulo a fixed modulus, stated over `nat`.
//!
//! Every contract in this crate describes field arithmetic through these spec
//! functions; the executable side is carried out by the curve library and
//! related to them through the trusted wrappers in `scalar` and `point`.

use vstd::prelude::*;
use vstd::arithmetic::div_mod::lemma_small_mod;
use vstd::arithmetic::div_mod::lemma_mul_mod_noop_left;
use vstd::arithmetic::div_mod::lemma_mul_mod_noop_right;
use vstd::arithmetic::mul::lemma_mul_is_associative;
use vstd::arithmetic::mul::lemma_mul_is_commutative;

verus! {

pub open spec fn add_mod(a: nat, b: nat, m: nat) -> nat {
    (a + b) % m
}

/// Difference modulo `m`; meant for operands below `m`.
pub open spec fn sub_mod(a: nat, b: nat, m: nat) -> nat {
    (((a + m) - b) as nat) % m
}

pub open spec fn mul_mod(a: nat, b: nat, m: nat) -> nat {
    (a * b) % m
}

/// The multiplicative inverse of `a` modulo `m`, where one exists.
pub open spec fn inv_mod(a: nat, m: nat) -> nat {
    choose|y: nat| y < m && #[trigger] ((a * y) % m) == 1
}

/// Reducing one summand first does not change a sum modulo `m`.
pub proof fn lemma_add_mod_left(x: nat, y: nat, m: nat)
    requires
        m > 0,
    ensures
        ((x % m) + y) % m == (x + y) % m,
{
    vstd::arithmetic::div_mod::lemma_add_mod_noop(x as int, y as int, m as int);
    vstd::arithmetic::div_mod::lemma_add_mod_noop((x % m) as int, y as int, m as int);
    vstd::arithmetic::div_mod::lemma_mod_twice(x as int, m as int);
}

/// Congruent summands give congruent sums.
pub proof fn lemma_mod_add_cong(x: nat, y: nat, z: nat, m: nat)
    requires
        m > 0,
        x % m == y % m,
    ensures
        (x + z) % m == (y + z) % m,
{
    vstd::arithmetic::div_mod::lemma_add_mod_noop(x as int, z as int, m as int);
    vstd::arithmetic::div_mod::lemma_add_mod_noop(y as int, z as int, m as int);
}

/// Adding the subtrahend back recovers the reduced minuend.
pub proof fn lemma_sub_then_add(x: nat, y: nat, m: nat)
    requires
        x < m,
        y < m,
    ensures
        add_mod(sub_mod(x, y, m), y, m) == x,
{
    if y <= x {
        vstd::arithmetic::div_mod::lemma_mod_add_multiples_vanish((x - y) as int, m as int);
        vstd::arithmetic::div_mod::lemma_small_mod((x - y) as nat, m);
        assert(sub_mod(x, y, m) == x - y);
        vstd::arithmetic::div_mod::lemma_small_mod(x, m);
    } else {
        vstd::arithmetic::div_mod::lemma_small_mod(((x + m) - y) as nat, m);
        assert(sub_mod(x, y, m) == (x + m) - y);
        vstd::arithmetic::div_mod::lemma_mod_add_multiples_vanish(x as int, m as int);
        vstd::arithmetic::div_mod::lemma_small_mod(x, m);
    }
}

/// Subtracting an addend again recovers the reduced other addend.
pub proof fn lemma_add_then_sub(u: nat, v: nat, m: nat)
    requires
        u < m,
        v < m,
    ensures
        sub_mod(add_mod(u, v, m), v, m) == u,
{
    let s = (u + v) % m;
    vstd::arithmetic::div_mod::lemma_mod_bound((u + v) as int, m as int);
    // ((s + m) - v) and (u + m·(0 or 1)) are congruent, and u is reduced
    vstd::arithmetic::div_mod::lemma_sub_mod_noop(((s + m)) as int, v as int, m as int);
    vstd::arithmetic::div_mod::lemma_mod_add_multiples_vanish(s as int, m as int);
    vstd::arithmetic::div_mod::lemma_sub_mod_noop((u + v + m) as int, v as int, m as int);
    vstd::arithmetic::div_mod::lemma_mod_add_multiples_vanish((u + v) as int, m as int);
    vstd::arithmetic::div_mod::lemma_mod_twice((u + v) as int, m as int);
    assert(((s + m) - v) % (m as int) == ((u + v + m) - v) % (m as int)) by {
        assert((s % m) == ((u + v) % m));
    }
    vstd::arithmetic::div_mod::lemma_mod_add_multiples_vanish(u as int, m as int);
    vstd::arithmetic::div_mod::lemma_small_mod(u, m);
}

/// A sum congruent to its reduced addend has the other addend congruent to
/// zero.
pub proof fn lemma_add_cancel_zero(e: nat, y: nat, m: nat)
    requires
        y < m,
        (e + y) % m == y,
    ensures
        e % m == 0,
{
    vstd::arithmetic::div_mod::lemma_sub_mod_noop((e + y) as int, y as int, m as int);
    vstd::arithmetic::div_mod::lemma_small_mod(y, m);
    assert(((((e + y) % m) - (y % m))) % (m as int) == (((e + y) - y)) % (m as int));
    vstd::arithmetic::div_mod::lemma_mod_self_0(m as int);
    assert((0int) % (m as int) == 0);
}

/// For reduced operands the modular difference vanishes only on equality.
pub proof fn lemma_sub_mod_zero_iff(a: nat, b: nat, m: nat)
    requires
        a < m,
        b < m,
    ensures
        sub_mod(a, b, m) == 0 <==> a == b,
{
    if a == b {
        assert(((a + m) - b) as nat == m);
        vstd::arithmetic::div_mod::lemma_mod_self_0(m as int);
    } else if a > b {
        vstd::arithmetic::div_mod::lemma_mod_add_multiples_vanish((a - b) as int, m as int);
        vstd::arithmetic::div_mod::lemma_small_mod((a - b) as nat, m);
    } else {
        vstd::arithmetic::div_mod::lemma_small_mod((m - (b - a)) as nat, m);
    }
}

/// A multiplicative inverse is unique, so any witness pins `inv_mod` down.
pub proof fn lemma_inv_mod_unique(a: nat, w: nat, m: nat)
    requires
        w < m,
        (a * w) % m == 1,
    ensures
        inv_mod(a, m) == w,
{
    let y = inv_mod(a, m);
    assert(y < m && (a * y) % m == 1);
    // w == w * ((a*y) % m) % m == (w*a*y) % m == ((w*a) % m * y) % m == y
    lemma_small_mod(w, m);
    lemma_mul_mod_noop_right(w as int, (a * y) as int, m as int);
    assert((w * ((a * y) % m)) % m == (w * (a * y)) % m);
    assert(w * ((a * y) % m) == w * 1) by {
        assert((a * y) % m == 1);
    }
    lemma_mul_is_associative(w as int, a as int, y as int);
    assert(w * (a * y) == (w * a) * y);
    lemma_mul_mod_noop_left((w * a) as int, y as int, m as int);
    assert(((w * a) * y) % m == (((w * a) % m) * y) % m);
    lemma_mul_is_commutative(w as int, a as int);
    assert((w * a) % m == 1);
    lemma_small_mod(y, m);
    assert(w % m == (1 * y) % m);
}

/// An element with an inverse has its reduced inverse as the `inv_mod`
/// witness, and negating the element negates the inverse.
pub proof fn lemma_inv_mod_neg(f: nat, m: nat)
    requires
        m >= 2,
        0 < f < m,
        mul_mod(f, inv_mod(f, m), m) == 1,
    ensures
        inv_mod(f, m) < m,
        0 < inv_mod(f, m),
        inv_mod(sub_mod(0, f, m), m) == sub_mod(0, inv_mod(f, m), m),
        mul_mod(sub_mod(0, f, m), sub_mod(0, inv_mod(f, m), m), m) == 1,
{
    let g = inv_mod(f, m);
    // the hypothesis witnesses the choose, so the chosen inverse is reduced
    assert(exists|y: nat| y < m && #[trigger] ((f * y) % m) == 1) by {
        vstd::arithmetic::div_mod::lemma_mod_bound((f * g) as int, m as int);
        vstd::arithmetic::div_mod::lemma_mul_mod_noop_right(f as int, g as int, m as int);
        assert((f * (g % m)) % m == 1);
        assert((g % m) < m);
    }
    assert(g < m && (f * g) % m == 1);
    assert(g != 0) by {
        if g == 0 {
            assert(f * 0nat == 0);
            vstd::arithmetic::div_mod::lemma_small_mod(0, m);
        }
    }
    let xx = sub_mod(0, f, m);
    let yy = sub_mod(0, g, m);
    vstd::arithmetic::div_mod::lemma_small_mod((m - f) as nat, m);
    vstd::arithmetic::div_mod::lemma_small_mod((m - g) as nat, m);
    assert(xx == m - f);
    assert(yy == m - g);
    // (m-f)(m-g) and f·g differ by a multiple of m
    assert((xx * yy) as int == (f * g) as int + (m as int) * ((m - f - g) as int))
        by (nonlinear_arith)
        requires
            xx == m - f,
            yy == m - g,
            f < m,
            g < m,
    ;
    lemma_congruent_by_multiple((xx * yy) as nat, (f * g) as nat, (m - f - g) as int, m);
    assert(mul_mod(xx, yy, m) == 1);
    lemma_inv_mod_unique(xx, yy, m);
}

/// Two naturals that differ by an integer multiple of `m` are congruent.
pub proof fn lemma_congruent_by_multiple(a: nat, b: nat, k: int, m: nat)
    requires
        m >= 1,
        a as int == b as int + (m as int) * k,
    ensures
        a % m == b % m,
{
    vstd::arithmetic::div_mod::lemma_add_mod_noop(b as int, ((m as int) * k) as int, m as int);
    vstd::arithmetic::div_mod::lemma_mod_multiples_basic(k, m as int);
    vstd::arithmetic::div_mod::lemma_mod_twice(b as int, m as int);
    assert((b as int + (m as int) * k) % (m as int) == ((b as int) % (m as int) + ((m as int) * k)
        % (m as int)) % (m as int));
    assert(((m as int) * k) % (m as int) == 0) by {
        lemma_mul_is_commutative(m as int, k);
    }
    assert((b as int + (m as int) * k) % (m as int) == (b as int) % (m as int));
    assert((a as int) % (m as int) == (b as int) % (m as int));
}

/// A factor may trade its sign with the other factor under the modulus.
pub proof fn lemma_mul_neg_swap(u: nat, g: nat, m: nat)
    requires
        m >= 2,
        u < m,
        g < m,
    ensures
        mul_mod(sub_mod(0, u, m), g, m) == mul_mod(u, sub_mod(0, g, m), m),
{
    if u == 0 || g == 0 {
        vstd::arithmetic::div_mod::lemma_mod_self_0(m as int);
        vstd::arithmetic::div_mod::lemma_small_mod(0, m);
        if u == 0 {
            assert(sub_mod(0, u, m) == 0);
            assert(0nat * g == 0);
            assert(mul_mod(0, g, m) == 0);
            assert(u * sub_mod(0, g, m) == 0);
            assert(mul_mod(u, sub_mod(0, g, m), m) == 0);
        } else {
            assert(sub_mod(0, g, m) == 0);
            assert(mul_mod(u, 0, m) == 0);
            vstd::arithmetic::div_mod::lemma_small_mod((m - u) as nat, m);
            assert(sub_mod(0, u, m) == m - u);
            assert((((m - u) as nat) * g) == 0) by {
                assert(g == 0);
            }
        }
    } else {
        vstd::arithmetic::div_mod::lemma_small_mod((m - u) as nat, m);
        vstd::arithmetic::div_mod::lemma_small_mod((m - g) as nat, m);
        assert(sub_mod(0, u, m) == m - u);
        assert(sub_mod(0, g, m) == m - g);
        assert((((m - u) as nat) * g) as int == (u * ((m - g) as nat)) as int + (m as int) * ((g
            - u) as int))
            by (nonlinear_arith)
            requires
                u < m,
                g < m,
        ;
        lemma_congruent_by_multiple(
            (((m - u) as nat) * g) as nat,
            (u * ((m - g) as nat)) as nat,
            (g - u) as int,
            m,
        );
    }
}

/// Reduced values with congruent translates are equal.
pub proof fn lemma_add_cancel_equal(u1: nat, u2: nat, t: nat, m: nat)
    requires
        m >= 1,
        u1 < m,
        u2 < m,
        (u1 + t) % m == (u2 + t) % m,
    ensures
        u1 == u2,
{
    vstd::arithmetic::div_mod::lemma_sub_mod_noop((u1 + t) as int, t as int, m as int);
    vstd::arithmetic::div_mod::lemma_sub_mod_noop((u2 + t) as int, t as int, m as int);
    assert((((u1 + t) % m) as int - (t as int) % (m as int)) % (m as int) == (u1 as int) % (
    m as int));
    assert((((u2 + t) % m) as int - (t as int) % (m as int)) % (m as int) == (u2 as int) % (
    m as int));
    vstd::arithmetic::div_mod::lemma_small_mod(u1, m);
    vstd::arithmetic::div_mod::lemma_small_mod(u2, m);
}

} // verus!
