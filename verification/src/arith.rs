//! Shared number-theoretic notions: congruence modulo a positive integer and
//! the greatest common divisor, with the lemmas the field and curve proofs use.

use vstd::arithmetic::div_mod::{
    lemma_mod_equivalence, lemma_mod_twice, lemma_mul_mod_noop_general, lemma_small_mod,
};
use vstd::arithmetic::power::pow;
use vstd::prelude::*;

verus! {

/// `a` and `b` are congruent modulo `p`.
pub open spec fn cong(a: int, b: int, p: int) -> bool {
    (a - b) % p == 0
}

/// The product of `t` and `v`, reduced modulo `p`.
pub open spec fn mul_mod(t: int, v: int, p: int) -> int {
    (t * v) % p
}

/// `v` has a multiplicative inverse modulo `p`.
pub open spec fn has_inverse(v: int, p: int) -> bool {
    exists|t: int| 0 <= t < p && #[trigger] mul_mod(t, v, p) == 1
}

/// The reduced multiplicative inverse of `v` modulo `p`. Meaningful only when
/// [`has_inverse`] holds; by [`lemma_inverse_unique`] it is then the one
/// residue in `[0, p)` whose product with `v` reduces to 1.
pub open spec fn inv_mod(v: int, p: int) -> int {
    choose|t: int| 0 <= t < p && #[trigger] mul_mod(t, v, p) == 1
}

/// Euclid's greatest common divisor, by repeated remainders.
pub open spec fn gcd(a: nat, b: nat) -> nat
    decreases b,
{
    if b == 0 {
        a
    } else {
        gcd(b, a % b)
    }
}

pub proof fn lemma_cong_refl(a: int, p: int)
    requires
        p > 0,
    ensures
        cong(a, a, p),
{
    lemma_small_mod(0, p as nat);
}

pub proof fn lemma_cong_sym(a: int, b: int, p: int)
    requires
        p > 0,
        cong(a, b, p),
    ensures
        cong(b, a, p),
{
    lemma_mod_equivalence(a, b, p);
    lemma_mod_equivalence(b, a, p);
}

pub proof fn lemma_cong_trans(a: int, b: int, c: int, p: int)
    requires
        p > 0,
        cong(a, b, p),
        cong(b, c, p),
    ensures
        cong(a, c, p),
{
    lemma_mod_equivalence(a, b, p);
    lemma_mod_equivalence(b, c, p);
    lemma_mod_equivalence(a, c, p);
}

pub proof fn lemma_cong_add(a: int, b: int, c: int, d: int, p: int)
    requires
        p > 0,
        cong(a, b, p),
        cong(c, d, p),
    ensures
        cong(a + c, b + d, p),
{
    lemma_mod_equivalence(a, b, p);
    lemma_mod_equivalence(c, d, p);
    vstd::arithmetic::div_mod::lemma_add_mod_noop(a, c, p);
    vstd::arithmetic::div_mod::lemma_add_mod_noop(b, d, p);
    lemma_mod_equivalence(a + c, b + d, p);
}

pub proof fn lemma_cong_sub(a: int, b: int, c: int, d: int, p: int)
    requires
        p > 0,
        cong(a, b, p),
        cong(c, d, p),
    ensures
        cong(a - c, b - d, p),
{
    lemma_mod_equivalence(a, b, p);
    lemma_mod_equivalence(c, d, p);
    vstd::arithmetic::div_mod::lemma_sub_mod_noop(a, c, p);
    vstd::arithmetic::div_mod::lemma_sub_mod_noop(b, d, p);
    lemma_mod_equivalence(a - c, b - d, p);
}

pub proof fn lemma_cong_mul(a: int, b: int, c: int, d: int, p: int)
    requires
        p > 0,
        cong(a, b, p),
        cong(c, d, p),
    ensures
        cong(a * c, b * d, p),
{
    lemma_mod_equivalence(a, b, p);
    lemma_mod_equivalence(c, d, p);
    lemma_mul_mod_noop_general(a, c, p);
    lemma_mul_mod_noop_general(b, d, p);
    lemma_mod_equivalence(a * c, b * d, p);
}

/// Reducing modulo `p` stays within the congruence class.
pub proof fn lemma_cong_mod(a: int, p: int)
    requires
        p > 0,
    ensures
        cong(a, a % p, p),
        cong(a % p, a, p),
{
    lemma_mod_twice(a, p);
    lemma_mod_equivalence(a, a % p, p);
    lemma_mod_equivalence(a % p, a, p);
}

/// Two congruent values that both lie in `[0, p)` are equal.
pub proof fn lemma_cong_bounded_equal(a: int, b: int, p: int)
    requires
        p > 0,
        0 <= a < p,
        0 <= b < p,
        cong(a, b, p),
    ensures
        a == b,
{
    lemma_mod_equivalence(a, b, p);
    lemma_small_mod(a as nat, p as nat);
    lemma_small_mod(b as nat, p as nat);
}

/// The greatest common divisor of `a` and zero is `a` itself.
pub proof fn lemma_gcd_zero(a: nat)
    ensures
        gcd(a, 0) == a,
{
}

/// Congruent bases have congruent powers.
pub proof fn lemma_cong_pow(a: int, b: int, e: nat, p: int)
    requires
        p > 0,
        cong(a, b, p),
    ensures
        cong(pow(a, e), pow(b, e), p),
    decreases e,
{
    reveal(pow);
    if e == 0 {
        lemma_cong_refl(1, p);
    } else {
        lemma_cong_pow(a, b, (e - 1) as nat, p);
        lemma_cong_mul(a, b, pow(a, (e - 1) as nat), pow(b, (e - 1) as nat), p);
        assert(pow(a, e) == a * pow(a, (e - 1) as nat));
        assert(pow(b, e) == b * pow(b, (e - 1) as nat));
    }
}

/// An inverse modulo `p` is unique among the reduced residues: any two
/// solutions of `(x * v) % p == 1` in `[0, p)` coincide. In particular the
/// element a multiplicative-inverse computation returns is the only one
/// meeting its contract.
pub proof fn lemma_inverse_unique(x1: int, x2: int, v: int, p: int)
    requires
        p > 1,
        0 <= x1 < p,
        0 <= x2 < p,
        (x1 * v) % p == 1,
        (x2 * v) % p == 1,
    ensures
        x1 == x2,
{
    lemma_small_mod(1, p as nat);
    lemma_mod_equivalence(x1 * v, 1, p);
    lemma_mod_equivalence(x2 * v, 1, p);
    lemma_cong_sym(x2 * v, 1, p);
    lemma_cong_trans(x1 * v, 1, x2 * v, p);
    lemma_cancel_common_factor(x1, x2, v, p);
}

/// Cancellation: if `a * v == b * v (mod p)` and `v` is invertible, `a == b`
/// once both sides are reduced.
pub proof fn lemma_cancel_common_factor(a: int, b: int, v: int, p: int)
    requires
        p > 1,
        0 <= a < p,
        0 <= b < p,
        cong(a * v, b * v, p),
        cong(a * v, 1, p) || has_inverse(v, p),
    ensures
        a == b,
{
    let u = if cong(a * v, 1, p) {
        a
    } else {
        choose|t: int| 0 <= t < p && #[trigger] mul_mod(t, v, p) == 1
    };
    assert(cong(u * v, 1, p)) by {
        if !cong(a * v, 1, p) {
            assert(mul_mod(u, v, p) == 1);
            lemma_small_mod(1, p as nat);
            lemma_mod_equivalence(u * v, 1, p);
        }
    }
    // a == a * (v * u) == (a * v) * u == (b * v) * u == b * (v * u) == b  (mod p)
    lemma_cong_refl(a, p);
    lemma_cong_refl(b, p);
    lemma_cong_refl(u, p);
    assert(v * u == u * v) by (nonlinear_arith);
    lemma_cong_mul(a * v, b * v, u, u, p);
    assert((a * v) * u == a * (v * u)) by (nonlinear_arith);
    assert((b * v) * u == b * (v * u)) by (nonlinear_arith);
    lemma_cong_mul(a, a, v * u, 1, p);
    lemma_cong_mul(b, b, v * u, 1, p);
    assert(a * 1 == a) by (nonlinear_arith);
    assert(b * 1 == b) by (nonlinear_arith);
    lemma_cong_sym(a * (v * u), a, p);
    lemma_cong_trans(a, a * (v * u), b * (v * u), p);
    lemma_cong_trans(a, b * (v * u), b, p);
    lemma_cong_bounded_equal(a, b, p);
}

/// Any reduced solution of `x * den == num (mod p)` with `den` invertible is
/// exactly the reduced product of `num` with the inverse of `den`.
pub proof fn lemma_div_unique(sv: int, num: int, den: int, p: int)
    requires
        1 < p,
        0 <= sv < p,
        cong(sv * den, num, p),
        has_inverse(den, p),
    ensures
        sv == (num * inv_mod(den, p)) % p,
{
    let t = inv_mod(den, p);
    assert(0 <= t < p && mul_mod(t, den, p) == 1);
    lemma_small_mod(1, p as nat);
    lemma_mod_equivalence(t * den, 1, p);
    let sp = (num * t) % p;
    vstd::arithmetic::div_mod::lemma_mod_bound(num * t, p);
    lemma_cong_mod(num * t, p);
    // sp * den == (num * t) * den == num * (t * den) == num  (mod p)
    lemma_cong_refl(den, p);
    lemma_cong_mul(sp, num * t, den, den, p);
    assert((num * t) * den == num * (t * den)) by (nonlinear_arith);
    lemma_cong_refl(num, p);
    lemma_cong_mul(num, num, t * den, 1, p);
    assert(num * 1 == num) by (nonlinear_arith);
    lemma_cong_trans(sp * den, num * (t * den), num, p);
    // so sv * den and sp * den agree, and den cancels
    lemma_cong_sym(sp * den, num, p);
    lemma_cong_trans(sv * den, num, sp * den, p);
    lemma_cancel_common_factor(sv, sp, den, p);
}

} // verus!
