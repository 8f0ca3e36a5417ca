//! The specification of the elliptic-curve group law and the algebra behind
//! it: the chord and tangent constructions land back on the curve.

use crate::arith::{
    cong, gcd, inv_mod, lemma_cong_add, lemma_cong_mul, lemma_cong_refl, lemma_cong_sub,
    lemma_cong_sym, lemma_cong_trans,
};
use crate::ec::ec_point::ECPoint;
use crate::felt::felt::Felt;
use crate::felt::felt_errors::FeltError;
use vstd::prelude::*;

verus! {

/// The affine point `(x, y)` satisfies `y^2 = x^3 + a*x + b` over `Z_p`.
pub open spec fn on_curve(x: int, y: int, a: int, b: int, p: int) -> bool {
    cong(y * y, x * x * x + a * x + b, p)
}

/// The identity element of the curve `(a, b)`: the point at infinity, with
/// zero sentinels for the unused coordinates.
pub open spec fn spec_infinity(a: Felt, b: Felt) -> ECPoint {
    ECPoint {
        x: Felt { value: 0, modulus: a.modulus },
        y: Felt { value: 0, modulus: a.modulus },
        a,
        b,
        infinity: true,
    }
}

/// What [`ECPoint::neg`] returns: infinity is its own negation; otherwise the
/// `y` coordinate is negated.
pub open spec fn spec_neg(pt: ECPoint) -> ECPoint {
    if pt.infinity {
        pt
    } else {
        ECPoint { x: pt.x, y: pt.y.spec_neg(), a: pt.a, b: pt.b, infinity: false }
    }
}

/// The affine result of a slope construction: given the slope `s` through
/// `p1` and `p2`, the third intersection of that line with the curve,
/// mirrored over the x-axis.
pub open spec fn spec_slope_point(p1: ECPoint, p2: ECPoint, num: int, den: int) -> Result<
    ECPoint,
    FeltError,
> {
    let m = p1.a.modulus;
    let p = m as int;
    if den == 0 {
        Err(FeltError::DivisionByZero)
    } else if gcd(m as nat, den as nat) != 1 {
        Err(FeltError::NotInvertible(den as u64, m))
    } else {
        let s = (num * inv_mod(den, p)) % p;
        let x3 = (s * s - p1.x.value - p2.x.value) % p;
        let y3 = (s * (p1.x.value - x3) - p1.y.value) % p;
        Ok(
            ECPoint {
                x: Felt { value: x3 as u64, modulus: m },
                y: Felt { value: y3 as u64, modulus: m },
                a: p1.a,
                b: p1.b,
                infinity: false,
            },
        )
    }
}

/// The reduced numerator of the group-law slope: the tangent numerator
/// `3*x^2 + a` when doubling, the chord numerator `y2 - y1` otherwise.
pub open spec fn spec_num(p1: ECPoint, p2: ECPoint) -> int {
    let p = p1.a.modulus as int;
    if p1 == p2 {
        (3 * p1.x.value * p1.x.value + p1.a.value) % p
    } else {
        (p2.y.value - p1.y.value) % p
    }
}

/// The reduced denominator of the group-law slope: `2*y` when doubling,
/// `x2 - x1` otherwise.
pub open spec fn spec_den(p1: ECPoint, p2: ECPoint) -> int {
    let p = p1.a.modulus as int;
    if p1 == p2 {
        (2 * p1.y.value) % p
    } else {
        (p2.x.value - p1.x.value) % p
    }
}

/// What [`ECPoint::add`] returns, following the ordered case analysis of the
/// group law: identity, inverse cancellation, tangent (doubling), chord.
/// The slope's divisor may fail to be invertible (for a composite modulus,
/// where two curve points can share an `x` coordinate without negated `y`,
/// or where the doubling denominator shares a factor with the modulus);
/// those cases surface the field division error.
pub open spec fn spec_add(p1: ECPoint, p2: ECPoint) -> Result<ECPoint, FeltError> {
    if p1.infinity {
        Ok(p2)
    } else if p2.infinity {
        Ok(p1)
    } else if p1 == spec_neg(p2) {
        Ok(spec_infinity(p1.a, p1.b))
    } else {
        spec_slope_point(p1, p2, spec_num(p1, p2), spec_den(p1, p2))
    }
}

/// `k` additions of `pt` to itself, starting from the identity, by repeated
/// [`spec_add`]; the first failure of the group law propagates.
pub open spec fn kfold(pt: ECPoint, k: nat) -> Result<ECPoint, FeltError>
    decreases k,
{
    if k == 0 {
        Ok(spec_infinity(pt.a, pt.b))
    } else {
        match kfold(pt, (k - 1) as nat) {
            Ok(q) => spec_add(q, pt),
            Err(e) => Err(e),
        }
    }
}

/// `o` is the order of `pt`: the smallest positive count of accumulated
/// additions of `pt` to itself that reaches the identity of its curve.
/// At most one `o` satisfies this.
pub open spec fn is_order(pt: ECPoint, o: nat) -> bool {
    &&& 1 <= o
    &&& kfold(pt, o) == Ok::<ECPoint, FeltError>(spec_infinity(pt.a, pt.b))
    &&& forall|j: nat|
        1 <= j < o ==> kfold(pt, j) != Ok::<ECPoint, FeltError>(spec_infinity(pt.a, pt.b))
}

/// What [`ECPoint::mul`] computes: double-and-add over the binary expansion
/// of `k`, least-significant bit first, accumulating into `acc` while `cur`
/// doubles each round (including a final doubling after the last bit, as the
/// loop performs it).
pub open spec fn spec_mul_loop(acc: ECPoint, cur: ECPoint, k: nat) -> Result<ECPoint, FeltError>
    decreases k,
{
    if k == 0 {
        Ok(acc)
    } else {
        let acc2 = if k % 2 == 1 {
            spec_add(acc, cur)
        } else {
            Ok(acc)
        };
        match acc2 {
            Err(e) => Err(e),
            Ok(a2) => match spec_add(cur, cur) {
                Err(e) => Err(e),
                Ok(c2) => spec_mul_loop(a2, c2, k / 2),
            },
        }
    }
}

/// The identity law on the right: for any well-formed point of the curve
/// `(a, b)`, adding the identity of that curve returns the point unchanged.
pub proof fn lemma_add_identity_right(pt: ECPoint)
    requires
        pt.wf(),
    ensures
        spec_add(pt, spec_infinity(pt.a, pt.b)) == Ok::<ECPoint, FeltError>(pt),
{
}

/// The identity law on the left: adding any well-formed point of the curve
/// `(a, b)` to that curve's identity returns the point unchanged.
pub proof fn lemma_add_identity_left(pt: ECPoint)
    requires
        pt.wf(),
    ensures
        spec_add(spec_infinity(pt.a, pt.b), pt) == Ok::<ECPoint, FeltError>(pt),
{
}

/// The identity is idempotent: infinity plus infinity is infinity.
pub proof fn lemma_add_infinity_infinity(a: Felt, b: Felt)
    requires
        a.wf(),
        b.wf(),
        a.modulus == b.modulus,
    ensures
        spec_add(spec_infinity(a, b), spec_infinity(a, b)) == Ok::<ECPoint, FeltError>(
            spec_infinity(a, b),
        ),
{
}

/// The inverse law: any well-formed point plus its negation cancels to the
/// identity of its curve.
pub proof fn lemma_add_neg_is_infinity(pt: ECPoint)
    requires
        pt.wf(),
    ensures
        spec_add(pt, spec_neg(pt)) == Ok::<ECPoint, FeltError>(spec_infinity(pt.a, pt.b)),
{
    if !pt.infinity {
        crate::felt::felt::lemma_neg_involution(pt.y);
        assert(spec_neg(spec_neg(pt)) == pt);
    }
}

/// Once the repeated addition of [`kfold`] fails, it stays failed for every
/// larger count.
pub proof fn lemma_kfold_err_propagates(pt: ECPoint, n: nat, j: nat)
    requires
        kfold(pt, n) is Err,
        n <= j,
    ensures
        kfold(pt, j) is Err,
    decreases j,
{
    if j > n {
        lemma_kfold_err_propagates(pt, n, (j - 1) as nat);
    }
}

/// Curve membership only depends on the congruence classes of the
/// coordinates.
pub proof fn lemma_on_curve_cong(x: int, y: int, x0: int, y0: int, a: int, b: int, p: int)
    requires
        1 < p,
        cong(x, x0, p),
        cong(y, y0, p),
        on_curve(x0, y0, a, b, p),
    ensures
        on_curve(x, y, a, b, p),
{
    lemma_cong_mul(y, y0, y, y0, p);
    lemma_cong_mul(x, x0, x, x0, p);
    lemma_cong_mul(x * x, x0 * x0, x, x0, p);
    lemma_cong_refl(a, p);
    lemma_cong_mul(a, a, x, x0, p);
    lemma_cong_refl(b, p);
    lemma_cong_add(x * x * x, x0 * x0 * x0, a * x, a * x0, p);
    lemma_cong_add(x * x * x + a * x, x0 * x0 * x0 + a * x0, b, b, p);
    lemma_cong_sym(x * x * x + a * x + b, x0 * x0 * x0 + a * x0 + b, p);
    lemma_cong_trans(y * y, y0 * y0, x0 * x0 * x0 + a * x0 + b, p);
    lemma_cong_trans(y * y, x0 * x0 * x0 + a * x0 + b, x * x * x + a * x + b, p);
}

/// Negating the `y` coordinate keeps a point on the curve.
pub proof fn lemma_neg_on_curve(x: int, y: int, ny: int, a: int, b: int, p: int)
    requires
        1 < p,
        on_curve(x, y, a, b, p),
        cong(ny, -y, p),
    ensures
        on_curve(x, ny, a, b, p),
{
    lemma_cong_mul(ny, -y, ny, -y, p);
    assert((-y) * (-y) == y * y) by (nonlinear_arith);
    lemma_cong_trans(ny * ny, y * y, x * x * x + a * x + b, p);
}

/// The key polynomial identity behind both halves of the group law: when the
/// roots `x1`, `x2`, `x3` sum to `s^2`, the cubic `X^3 + a*X + b` minus the
/// squared line `(s*X + c)^2` differs from `(X - x1)(X - x2)(X - x3)` by the
/// linear remainder `d1*X + d0`, evaluated here at `t`.
proof fn lemma_cubic_remainder(
    t: int,
    x1: int,
    x2: int,
    x3: int,
    s: int,
    c: int,
    a: int,
    b: int,
    d1: int,
    d0: int,
)
    requires
        x1 + x2 + x3 == s * s,
        d1 == (a - 2 * s * c) - (x1 * x2 + x1 * x3 + x2 * x3),
        d0 == (b - c * c) + x1 * x2 * x3,
    ensures
        t * t * t + a * t + b - (s * t + c) * (s * t + c) == (t - x1) * ((t - x2) * (t - x3)) + d1
            * t + d0,
{
    assert((t - x2) * (t - x3) == t * t - (x2 + x3) * t + x2 * x3) by (nonlinear_arith);
    assert(t * (t * t - (x2 + x3) * t + x2 * x3) == t * t * t - (x2 + x3) * (t * t) + (x2 * x3)
        * t) by (nonlinear_arith);
    assert(x1 * (t * t - (x2 + x3) * t + x2 * x3) == x1 * (t * t) - (x1 * x2 + x1 * x3) * t + x1
        * x2 * x3) by (nonlinear_arith);
    assert((t - x1) * (t * t - (x2 + x3) * t + x2 * x3) == t * (t * t - (x2 + x3) * t + x2 * x3)
        - x1 * (t * t - (x2 + x3) * t + x2 * x3)) by (nonlinear_arith);
    assert((x2 + x3) * (t * t) + x1 * (t * t) == (s * s) * (t * t)) by (nonlinear_arith)
        requires
            x1 + x2 + x3 == s * s,
    ;
    assert((x2 * x3) * t + (x1 * x2 + x1 * x3) * t == (x1 * x2 + x1 * x3 + x2 * x3) * t)
        by (nonlinear_arith);
    assert((t - x1) * (t * t - (x2 + x3) * t + x2 * x3) == t * t * t - (s * s) * (t * t) + (x1 * x2
        + x1 * x3 + x2 * x3) * t - x1 * x2 * x3);
    assert((s * t + c) * (s * t + c) == (s * s) * (t * t) + (2 * s * c) * t + c * c)
        by (nonlinear_arith);
    assert(d1 * t == a * t - (2 * s * c) * t - (x1 * x2 + x1 * x3 + x2 * x3) * t)
        by (nonlinear_arith)
        requires
            d1 == (a - 2 * s * c) - (x1 * x2 + x1 * x3 + x2 * x3),
    ;
}

/// The chord construction: if `(x1, y1)` and `(x2, y2)` lie on the curve,
/// `s` is a slope of the chord through them (`s * (x2 - x1) == y2 - y1`
/// modulo `p`) and `x2 - x1` is invertible with witness `u`, then the point
/// `(s^2 - x1 - x2, s * (x1 - x3) - y1)` lies on the curve as well.
pub proof fn lemma_chord_on_curve(
    x1: int,
    y1: int,
    x2: int,
    y2: int,
    a: int,
    b: int,
    s: int,
    u: int,
    p: int,
)
    requires
        1 < p,
        on_curve(x1, y1, a, b, p),
        on_curve(x2, y2, a, b, p),
        cong(s * (x2 - x1), y2 - y1, p),
        cong(u * (x2 - x1), 1, p),
    ensures
        ({
            let x3 = s * s - x1 - x2;
            let y3 = s * (x1 - x3) - y1;
            on_curve(x3, y3, a, b, p)
        }),
{
    let x3 = s * s - x1 - x2;
    let y3 = s * (x1 - x3) - y1;
    let c = y1 - s * x1;
    let d1 = (a - 2 * s * c) - (x1 * x2 + x1 * x3 + x2 * x3);
    let d0 = (b - c * c) + x1 * x2 * x3;
    // The cubic minus the squared chord line, evaluated at x1, x2 and x3.
    // Because x1 + x2 + x3 == s^2, the cubic (X-x1)(X-x2)(X-x3) matches it up
    // to the linear remainder d1*X + d0, and the product vanishes at each
    // root.
    lemma_cubic_remainder(x1, x1, x2, x3, s, c, a, b, d1, d0);
    lemma_cubic_remainder(x2, x1, x2, x3, s, c, a, b, d1, d0);
    lemma_cubic_remainder(x3, x1, x2, x3, s, c, a, b, d1, d0);
    assert((x1 - x1) * ((x1 - x2) * (x1 - x3)) == 0) by (nonlinear_arith);
    assert((x2 - x1) * ((x2 - x2) * (x2 - x3)) == 0) by (nonlinear_arith);
    assert((x3 - x1) * ((x3 - x2) * (x3 - x3)) == 0) by (nonlinear_arith);
    assert(x1 * x1 * x1 + a * x1 + b - (s * x1 + c) * (s * x1 + c) == d1 * x1 + d0);
    assert(x2 * x2 * x2 + a * x2 + b - (s * x2 + c) * (s * x2 + c) == d1 * x2 + d0);
    assert(x3 * x3 * x3 + a * x3 + b - (s * x3 + c) * (s * x3 + c) == d1 * x3 + d0);
    // At x1 the chord line passes through y1 exactly.
    assert(s * x1 + c == y1);
    assert(cong(d1 * x1 + d0, 0, p)) by {
        lemma_cong_refl(x1 * x1 * x1 + a * x1 + b, p);
        lemma_cong_sub(x1 * x1 * x1 + a * x1 + b, x1 * x1 * x1 + a * x1 + b, y1 * y1, x1 * x1 * x1
            + a * x1 + b, p);
    }
    // At x2 the chord line is congruent to y2.
    let w = s * x2 + c;
    assert(cong(w, y2, p)) by {
        assert(w == s * (x2 - x1) + y1) by (nonlinear_arith)
            requires
                c == y1 - s * x1,
                w == s * x2 + c,
        ;
        lemma_cong_refl(y1, p);
        lemma_cong_add(s * (x2 - x1), y2 - y1, y1, y1, p);
    }
    assert(cong(d1 * x2 + d0, 0, p)) by {
        lemma_cong_mul(w, y2, w, y2, p);
        lemma_cong_refl(x2 * x2 * x2 + a * x2 + b, p);
        lemma_cong_sub(x2 * x2 * x2 + a * x2 + b, x2 * x2 * x2 + a * x2 + b, w * w, y2 * y2, p);
        lemma_cong_sub(x2 * x2 * x2 + a * x2 + b, x2 * x2 * x2 + a * x2 + b, y2 * y2, x2 * x2 * x2
            + a * x2 + b, p);
        lemma_cong_trans(x2 * x2 * x2 + a * x2 + b - w * w, x2 * x2 * x2 + a * x2 + b - y2 * y2, 0,
            p);
    }
    // The difference of the two evaluations cancels d0, and the invertibility
    // of x2 - x1 cancels the factor, leaving d1 == 0 (mod p).
    assert(cong(d1 * (x2 - x1), 0, p)) by {
        lemma_cong_sub(d1 * x2 + d0, 0, d1 * x1 + d0, 0, p);
        assert((d1 * x2 + d0) - (d1 * x1 + d0) == d1 * (x2 - x1)) by (nonlinear_arith);
    }
    assert(cong(d1, 0, p)) by {
        lemma_cong_refl(u, p);
        lemma_cong_mul(d1 * (x2 - x1), 0, u, u, p);
        assert((d1 * (x2 - x1)) * u == d1 * (u * (x2 - x1))) by (nonlinear_arith);
        assert(0 * u == 0) by (nonlinear_arith);
        lemma_cong_refl(d1, p);
        lemma_cong_mul(d1, d1, u * (x2 - x1), 1, p);
        assert(d1 * 1 == d1) by (nonlinear_arith);
        lemma_cong_sym(d1 * (u * (x2 - x1)), 0, p);
        lemma_cong_sym(d1 * (u * (x2 - x1)), d1, p);
        lemma_cong_trans(d1, d1 * (u * (x2 - x1)), 0, p);
    }
    assert(cong(d0, 0, p)) by {
        lemma_cong_refl(x1, p);
        lemma_cong_mul(d1, 0, x1, x1, p);
        assert(0 * x1 == 0) by (nonlinear_arith);
        lemma_cong_sub(d1 * x1 + d0, 0, d1 * x1, 0, p);
    }
    // Evaluating at x3 now shows the mirrored line value squares to the
    // cubic, and that value is exactly -y3.
    assert(cong(d1 * x3 + d0, 0, p)) by {
        lemma_cong_refl(x3, p);
        lemma_cong_mul(d1, 0, x3, x3, p);
        assert(0 * x3 == 0) by (nonlinear_arith);
        lemma_cong_add(d1 * x3, 0, d0, 0, p);
    }
    assert(s * x3 + c == -y3) by (nonlinear_arith)
        requires
            y3 == s * (x1 - x3) - y1,
            c == y1 - s * x1,
    ;
    assert((s * x3 + c) * (s * x3 + c) == y3 * y3) by (nonlinear_arith)
        requires
            s * x3 + c == -y3,
    ;
    assert(cong(x3 * x3 * x3 + a * x3 + b - y3 * y3, 0, p));
    lemma_cong_refl(y3 * y3, p);
    lemma_cong_add(x3 * x3 * x3 + a * x3 + b - y3 * y3, 0, y3 * y3, y3 * y3, p);
    lemma_cong_sym(x3 * x3 * x3 + a * x3 + b, y3 * y3, p);
}

/// The tangent construction: if `(x1, y1)` lies on the curve and `s` is a
/// tangent slope there (`s * (2 * y1) == 3 * x1^2 + a` modulo `p`), then the
/// doubled point `(s^2 - 2*x1, s * (x1 - x3) - y1)` lies on the curve.
pub proof fn lemma_tangent_on_curve(x1: int, y1: int, a: int, b: int, s: int, p: int)
    requires
        1 < p,
        on_curve(x1, y1, a, b, p),
        cong(s * (2 * y1), 3 * x1 * x1 + a, p),
    ensures
        ({
            let x3 = s * s - x1 - x1;
            let y3 = s * (x1 - x3) - y1;
            on_curve(x3, y3, a, b, p)
        }),
{
    let x3 = s * s - x1 - x1;
    let y3 = s * (x1 - x3) - y1;
    let c = y1 - s * x1;
    let d1 = (a - 2 * s * c) - (x1 * x1 + x1 * x3 + x1 * x3);
    let d0 = (b - c * c) + x1 * x1 * x3;
    // The cubic minus the squared tangent line, against (X-x1)^2 (X-x3):
    // because 2*x1 + x3 == s^2 the difference is the remainder d1*X + d0,
    // and the product vanishes at both roots.
    lemma_cubic_remainder(x1, x1, x1, x3, s, c, a, b, d1, d0);
    lemma_cubic_remainder(x3, x1, x1, x3, s, c, a, b, d1, d0);
    assert((x1 - x1) * ((x1 - x1) * (x1 - x3)) == 0) by (nonlinear_arith);
    assert((x3 - x1) * ((x3 - x1) * (x3 - x3)) == 0) by (nonlinear_arith);
    assert(x1 * x1 * x1 + a * x1 + b - (s * x1 + c) * (s * x1 + c) == d1 * x1 + d0);
    assert(x3 * x3 * x3 + a * x3 + b - (s * x3 + c) * (s * x3 + c) == d1 * x3 + d0);
    // The linear coefficient is exactly the tangency defect, zero modulo p.
    assert(d1 == (3 * x1 * x1 + a) - s * (2 * y1)) by (nonlinear_arith)
        requires
            x3 == s * s - x1 - x1,
            c == y1 - s * x1,
            d1 == (a - 2 * s * c) - (x1 * x1 + x1 * x3 + x1 * x3),
    ;
    assert(cong(d1, 0, p)) by {
        lemma_cong_sym(s * (2 * y1), 3 * x1 * x1 + a, p);
        lemma_cong_refl(s * (2 * y1), p);
        lemma_cong_sub(3 * x1 * x1 + a, s * (2 * y1), s * (2 * y1), s * (2 * y1), p);
    }
    assert(s * x1 + c == y1);
    assert(cong(d1 * x1 + d0, 0, p)) by {
        lemma_cong_refl(x1 * x1 * x1 + a * x1 + b, p);
        lemma_cong_sub(x1 * x1 * x1 + a * x1 + b, x1 * x1 * x1 + a * x1 + b, y1 * y1, x1 * x1 * x1
            + a * x1 + b, p);
    }
    assert(cong(d0, 0, p)) by {
        lemma_cong_refl(x1, p);
        lemma_cong_mul(d1, 0, x1, x1, p);
        assert(0 * x1 == 0) by (nonlinear_arith);
        lemma_cong_sub(d1 * x1 + d0, 0, d1 * x1, 0, p);
    }
    assert(cong(d1 * x3 + d0, 0, p)) by {
        lemma_cong_refl(x3, p);
        lemma_cong_mul(d1, 0, x3, x3, p);
        assert(0 * x3 == 0) by (nonlinear_arith);
        lemma_cong_add(d1 * x3, 0, d0, 0, p);
    }
    assert(s * x3 + c == -y3) by (nonlinear_arith)
        requires
            y3 == s * (x1 - x3) - y1,
            c == y1 - s * x1,
    ;
    assert((s * x3 + c) * (s * x3 + c) == y3 * y3) by (nonlinear_arith)
        requires
            s * x3 + c == -y3,
    ;
    assert(cong(x3 * x3 * x3 + a * x3 + b - y3 * y3, 0, p));
    lemma_cong_refl(y3 * y3, p);
    lemma_cong_add(x3 * x3 * x3 + a * x3 + b - y3 * y3, 0, y3 * y3, y3 * y3, p);
    lemma_cong_sym(x3 * x3 * x3 + a * x3 + b, y3 * y3, p);
}

} // verus!
