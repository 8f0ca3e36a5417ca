use crate::arith::{
    cong, gcd, has_inverse, lemma_cong_add, lemma_cong_bounded_equal, lemma_cong_mod,
    lemma_cong_mul, lemma_cong_refl, lemma_cong_sub, lemma_cong_sym, lemma_cong_trans, mul_mod,
};
use crate::ec::ec_errors::ECError;
use crate::ec::group_law::{
    is_order, kfold, lemma_chord_on_curve, lemma_kfold_err_propagates, lemma_neg_on_curve,
    lemma_on_curve_cong, lemma_tangent_on_curve, on_curve, spec_add, spec_den, spec_infinity,
    spec_mul_loop, spec_neg, spec_num, spec_slope_point,
};
use crate::felt::felt::Felt;
use crate::felt::felt_errors::FeltError;
use std::collections::HashMap;
use vstd::arithmetic::div_mod::{lemma_mod_bound, lemma_small_mod};
use vstd::arithmetic::power::pow;
use vstd::prelude::*;

verus! {

broadcast use {
    vstd::std_specs::hash::group_hash_axioms,
    vstd::seq_lib::lemma_seq_contains_after_push,
};

/// `pt` is an affine (non-identity) point of the curve `(a, b)`, satisfying
/// the representation invariant.
pub open spec fn valid_affine(pt: ECPoint, a: Felt, b: Felt) -> bool {
    pt.wf() && !pt.infinity && pt.a == a && pt.b == b
}

/// No element of the sequence occurs twice.
pub open spec fn distinct_points(s: Seq<ECPoint>) -> bool {
    forall|i1: int, i2: int| 0 <= i1 < i2 < s.len() ==> s[i1] != s[i2]
}

/// `m` is the ceiling of the square root of `n`: the least count whose
/// square reaches `n`.
pub open spec fn is_ceil_sqrt(n: nat, m: nat) -> bool {
    1 <= m && (m - 1) * (m - 1) < n <= m * m
}

/// The table key of an affine point: `x * 2^32 + y`. Reduced coordinates lie
/// below `2^32`, so the pair decomposes uniquely.
pub open spec fn spec_point_key(pt: ECPoint) -> int {
    pt.x.value * 0x1_0000_0000 + pt.y.value
}

/// The giant stride of the baby-step giant-step search: `m` times the
/// generator, as scalar multiplication computes it.
pub open spec fn bsgs_giant_stride(pt: ECPoint, m: nat) -> Result<ECPoint, FeltError> {
    spec_mul_loop(spec_infinity(pt.a, pt.b), pt, m)
}

/// The `j`-th giant-step probe: `target - j * (m * pt)`, the point the baby
/// table is asked about in round `j`. A failed group-law step along the way
/// propagates.
pub open spec fn bsgs_probe(pt: ECPoint, target: ECPoint, m: nat, j: nat) -> Result<
    ECPoint,
    FeltError,
> {
    match bsgs_giant_stride(pt, m) {
        Ok(mp) => match kfold(mp, j) {
            Ok(jmp) => spec_add(target, spec_neg(jmp)),
            Err(e) => Err(e),
        },
        Err(e) => Err(e),
    }
}

/// Baby step `i` answers giant-step probe `j`: both sides of the search are
/// defined and `i * pt` equals `target - j * (m * pt)`.
pub open spec fn bsgs_pair_matches(pt: ECPoint, target: ECPoint, m: nat, j: nat, i: nat) -> bool {
    &&& kfold(pt, i) is Ok
    &&& bsgs_probe(pt, target, m, j) is Ok
    &&& kfold(pt, i)->Ok_0 == bsgs_probe(pt, target, m, j)->Ok_0
}

/// Every entry of the baby-step table records a defined, affine baby step
/// below `m` under the key of its point.
spec fn baby_table_inv(tbl: Map<u64, u64>, pt: ECPoint, m: nat) -> bool {
    forall|kk: u64| #[trigger] tbl.contains_key(kk) ==> {
        &&& 1 <= tbl[kk] < m
        &&& kfold(pt, tbl[kk] as nat) is Ok
        &&& kfold(pt, tbl[kk] as nat)->Ok_0.wf()
        &&& kfold(pt, tbl[kk] as nat)->Ok_0.same_curve(pt)
        &&& !kfold(pt, tbl[kk] as nat)->Ok_0.infinity
        &&& spec_point_key(kfold(pt, tbl[kk] as nat)->Ok_0) == kk
    }
}

/// A point of the short Weierstrass curve `y^2 = x^3 + a*x + b` over the
/// field implied by the shared modulus of its four elements, or the identity
/// "point at infinity" of that curve.
///
/// Invariant ([`ECPoint::wf`]): all four field elements share one modulus;
/// an affine point satisfies the curve equation; the identity carries zero
/// sentinels in `x` and `y`, so that structural equality compares identities
/// of the same curve as equal.
#[derive(Debug, Clone, Copy, PartialEq, Eq, Hash, Structural)]
pub struct ECPoint {
    pub x: Felt,
    pub y: Felt,
    pub a: Felt,
    pub b: Felt,
    pub infinity: bool,
}

impl ECPoint {
    /// The representation invariant.
    pub open spec fn wf(self) -> bool {
        &&& self.x.wf()
        &&& self.y.wf()
        &&& self.a.wf()
        &&& self.b.wf()
        &&& self.x.modulus == self.a.modulus
        &&& self.y.modulus == self.a.modulus
        &&& self.b.modulus == self.a.modulus
        &&& (self.infinity ==> self.x.value == 0 && self.y.value == 0)
        &&& (!self.infinity ==> on_curve(
            self.x.value as int,
            self.y.value as int,
            self.a.value as int,
            self.b.value as int,
            self.a.modulus as int,
        ))
    }

    /// Both points carry the same curve parameters.
    pub open spec fn same_curve(self, other: ECPoint) -> bool {
        self.a == other.a && self.b == other.b
    }

    /// Validating constructor: builds the affine point `(x, y)` on the curve
    /// `(a, b)` and fails with a recoverable [`ECError::PointNotOnCurve`]
    /// exactly when the pair does not satisfy the curve equation.
    pub fn new(x: Felt, y: Felt, a: Felt, b: Felt) -> (r: Result<ECPoint, ECError>)
        requires
            x.wf(),
            y.wf(),
            a.wf(),
            b.wf(),
            x.modulus == a.modulus,
            y.modulus == a.modulus,
            b.modulus == a.modulus,
        ensures
            r is Ok <==> on_curve(
                x.value as int,
                y.value as int,
                a.value as int,
                b.value as int,
                a.modulus as int,
            ),
            match r {
                Ok(pt) => pt == (ECPoint { x, y, a, b, infinity: false }) && pt.wf(),
                Err(e) => e == ECError::PointNotOnCurve(x.value, y.value, a.value, b.value),
            },
    {
        let point = ECPoint { x, y, a, b, infinity: false };
        match point.verify_point() {
            Ok(()) => Ok(point),
            Err(e) => Err(e),
        }
    }

    /// Checks the curve equation `y^2 == x^3 + a*x + b` over the shared
    /// modulus.
    fn verify_point(&self) -> (r: Result<(), ECError>)
        requires
            self.x.wf(),
            self.y.wf(),
            self.a.wf(),
            self.b.wf(),
            self.x.modulus == self.a.modulus,
            self.y.modulus == self.a.modulus,
            self.b.modulus == self.a.modulus,
        ensures
            r is Ok <==> on_curve(
                self.x.value as int,
                self.y.value as int,
                self.a.value as int,
                self.b.value as int,
                self.a.modulus as int,
            ),
            r is Err ==> r == Err::<(), ECError>(
                ECError::PointNotOnCurve(self.x.value, self.y.value, self.a.value, self.b.value),
            ),
    {
        let lhs = self.y.pow(2);
        let rhs = self.x.pow(3).add(self.a.mul(self.x)).add(self.b);
        proof {
            let p = self.a.modulus as int;
            let xv = self.x.value as int;
            let yv = self.y.value as int;
            let av = self.a.value as int;
            let bv = self.b.value as int;
            reveal_with_fuel(pow, 4);
            assert(pow(yv, 2) == yv * (yv * 1));
            assert(yv * (yv * 1) == yv * yv) by (nonlinear_arith);
            assert(pow(xv, 3) == xv * (xv * (xv * 1)));
            assert(xv * (xv * (xv * 1)) == xv * xv * xv) by (nonlinear_arith);
            // lhs.value is congruent to y^2
            lemma_cong_mod(yv * yv, p);
            // rhs.value is congruent to x^3 + a*x + b
            let x3 = self.x.spec_pow(3);
            lemma_cong_mod(xv * xv * xv, p);
            assert(cong(x3.value as int, xv * xv * xv, p));
            assert(cong((self.a.spec_mul(self.x)).value as int, av * xv, p)) by {
                lemma_cong_mod(av * xv, p);
            }
            let t1 = x3.spec_add(self.a.spec_mul(self.x));
            assert(cong(t1.value as int, xv * xv * xv + av * xv, p)) by {
                lemma_cong_mod(x3.value + (self.a.spec_mul(self.x)).value, p);
                lemma_cong_add(
                    x3.value as int,
                    xv * xv * xv,
                    (self.a.spec_mul(self.x)).value as int,
                    av * xv,
                    p,
                );
                lemma_cong_trans(
                    t1.value as int,
                    x3.value + (self.a.spec_mul(self.x)).value,
                    xv * xv * xv + av * xv,
                    p,
                );
            }
            assert(cong(rhs.value as int, xv * xv * xv + av * xv + bv, p)) by {
                lemma_cong_mod(t1.value + bv, p);
                lemma_cong_refl(bv, p);
                lemma_cong_add(t1.value as int, xv * xv * xv + av * xv, bv, bv, p);
                lemma_cong_trans(
                    rhs.value as int,
                    t1.value + bv,
                    xv * xv * xv + av * xv + bv,
                    p,
                );
            }
            // equality of the reduced sides coincides with curve membership
            if lhs.value == rhs.value {
                lemma_cong_sym(lhs.value as int, yv * yv, p);
                lemma_cong_trans(yv * yv, lhs.value as int, xv * xv * xv + av * xv + bv, p);
            }
            if on_curve(xv, yv, av, bv, p) {
                lemma_cong_trans(lhs.value as int, yv * yv, xv * xv * xv + av * xv + bv, p);
                lemma_cong_sym(rhs.value as int, xv * xv * xv + av * xv + bv, p);
                lemma_cong_trans(lhs.value as int, xv * xv * xv + av * xv + bv, rhs.value as int, p);
                lemma_cong_bounded_equal(lhs.value as int, rhs.value as int, p);
            }
        }
        if lhs == rhs {
            Ok(())
        } else {
            Err(ECError::PointNotOnCurve(self.x.value, self.y.value, self.a.value, self.b.value))
        }
    }

    /// The identity element for the `(a, b)` curve.
    pub fn infinity(a: Felt, b: Felt) -> (r: ECPoint)
        requires
            a.wf(),
            b.wf(),
            a.modulus == b.modulus,
        ensures
            r == spec_infinity(a, b),
            r.wf(),
            r.infinity,
    {
        proof {
            lemma_small_mod(0, a.modulus as nat);
        }
        ECPoint {
            x: Felt::new(0, a.modulus()),
            y: Felt::new(0, a.modulus()),
            a,
            b,
            infinity: true,
        }
    }

    /// The group law of the curve, by ordered case analysis: identity
    /// elements pass the other operand through, a point and its negation
    /// cancel to infinity, doubling uses the tangent slope and distinct
    /// points the chord slope. The slope's field division can fail (see
    /// [`spec_add`]); that error is surfaced. Both points must lie on one
    /// curve, which the caller establishes.
    pub fn add(&self, other: &ECPoint) -> (r: Result<ECPoint, FeltError>)
        requires
            self.wf(),
            other.wf(),
            self.same_curve(*other),
        ensures
            r == spec_add(*self, *other),
            match r {
                Ok(q) => q.wf() && q.same_curve(*self),
                Err(_) => true,
            },
    {
        // P + 0 == P and 0 + P == P
        if self.infinity {
            return Ok(*other);
        }
        if other.infinity {
            return Ok(*self);
        }
        // P + (-P) == 0
        if *self == other.neg() {
            return Ok(Self::infinity(self.a, self.b));
        }
        let m = self.a.modulus();
        let (num, den) = if *self == *other {
            let felt_3 = Felt::new(3, m);
            let felt_2 = Felt::new(2, m);
            proof {
                lemma_num_den_doubling(*self);
            }
            (felt_3.mul(self.x.pow(2)).add(self.a), felt_2.mul(self.y))
        } else {
            (other.y.sub(self.y), other.x.sub(self.x))
        };
        proof {
            assert(num.wf() && den.wf() && num.modulus == m && den.modulus == m);
            assert(num.value == spec_num(*self, *other));
            assert(den.value == spec_den(*self, *other));
        }
        match num.div(den) {
            Err(e) => {
                proof {
                    crate::arith::lemma_gcd_zero(m as nat);
                }
                Err(e)
            },
            Ok(s) => {
                let x = s.pow(2).sub(self.x).sub(other.x);
                let y = s.mul(self.x.sub(x)).sub(self.y);
                proof {
                    let p = m as int;
                    let sv = s.value as int;
                    let x1 = self.x.value as int;
                    let y1 = self.y.value as int;
                    // the computed x is congruent to s^2 - x1 - x2
                    reveal_with_fuel(pow, 3);
                    assert(pow(sv, 2) == sv * (sv * 1));
                    assert(sv * (sv * 1) == sv * sv) by (nonlinear_arith);
                    let s2 = s.spec_pow(2);
                    lemma_cong_mod(sv * sv, p);
                    let t1 = s2.spec_sub(self.x);
                    lemma_cong_mod(s2.value - x1, p);
                    lemma_cong_refl(x1, p);
                    lemma_cong_sub(s2.value as int, sv * sv, x1, x1, p);
                    lemma_cong_trans(t1.value as int, s2.value - x1, sv * sv - x1, p);
                    lemma_cong_mod(t1.value - other.x.value, p);
                    lemma_cong_refl(other.x.value as int, p);
                    lemma_cong_sub(
                        t1.value as int,
                        sv * sv - x1,
                        other.x.value as int,
                        other.x.value as int,
                        p,
                    );
                    lemma_cong_trans(
                        x.value as int,
                        t1.value - other.x.value,
                        sv * sv - x1 - other.x.value,
                        p,
                    );
                    // the computed y is congruent to s * (x1 - x) - y1
                    let t2 = self.x.spec_sub(x);
                    lemma_cong_mod(x1 - x.value, p);
                    let t3 = s.spec_mul(t2);
                    lemma_cong_refl(sv, p);
                    lemma_cong_mod(sv * t2.value, p);
                    lemma_cong_mul(sv, sv, t2.value as int, x1 - x.value, p);
                    lemma_cong_trans(t3.value as int, sv * t2.value, sv * (x1 - x.value), p);
                    lemma_cong_mod(t3.value - y1, p);
                    lemma_cong_refl(y1, p);
                    lemma_cong_sub(t3.value as int, sv * (x1 - x.value), y1, y1, p);
                    lemma_cong_trans(
                        y.value as int,
                        t3.value - y1,
                        sv * (x1 - x.value) - y1,
                        p,
                    );
                    lemma_slope_result(*self, *other, sv, x.value as int, y.value as int);
                }
                match ECPoint::new(x, y, self.a, self.b) {
                    Ok(pt) => Ok(pt),
                    Err(_) => vstd::pervasive::unreached(),
                }
            },
        }
    }

    /// Scalar multiplication `k * P` by double-and-add over the binary
    /// expansion of `k`, least-significant bit first, accumulating into the
    /// identity. A failure of the group law along the way (possible only for
    /// a composite modulus) is surfaced.
    pub fn mul(&self, k: u64) -> (r: Result<ECPoint, FeltError>)
        requires
            self.wf(),
        ensures
            r == spec_mul_loop(spec_infinity(self.a, self.b), *self, k as nat),
            match r {
                Ok(q) => q.wf() && q.same_curve(*self),
                Err(_) => true,
            },
    {
        let mut result = Self::infinity(self.a, self.b);
        let mut current = *self;
        let mut i = k;
        while i > 0
            invariant
                self.wf(),
                result.wf(),
                current.wf(),
                result.same_curve(*self),
                current.same_curve(*self),
                spec_mul_loop(result, current, i as nat) == spec_mul_loop(
                    spec_infinity(self.a, self.b),
                    *self,
                    k as nat,
                ),
            decreases i,
        {
            if i % 2 == 1 {
                result = match result.add(&current) {
                    Ok(v) => v,
                    Err(e) => {
                        return Err(e);
                    },
                };
            }
            i = i / 2;
            current = match current.add(&current) {
                Ok(v) => v,
                Err(e) => {
                    return Err(e);
                },
            };
        }
        Ok(result)
    }

    /// The order of the point: the smallest positive number of accumulated
    /// additions of the point to itself that reaches the identity. Returns
    /// `None` when the group law fails along the walk or the count would
    /// leave `u64` range, which cannot happen on an honest curve group.
    /// Cost is linear in the order; acceptable for small demonstration
    /// curves only.
    pub fn order(&self) -> (r: Option<u64>)
        requires
            self.wf(),
        ensures
            match r {
                Some(k) => is_order(*self, k as nat),
                None => forall|j: nat|
                    1 <= j <= u64::MAX ==> kfold(*self, j) != Ok::<ECPoint, FeltError>(
                        spec_infinity(self.a, self.b),
                    ),
            },
    {
        let infinity = Self::infinity(self.a, self.b);
        let mut gi = *self;
        let mut order: u64 = 1;
        proof {
            assert(kfold(*self, 0) == Ok::<ECPoint, FeltError>(spec_infinity(self.a, self.b)));
            assert(kfold(*self, 1) == spec_add(spec_infinity(self.a, self.b), *self));
        }
        while gi != infinity
            invariant
                self.wf(),
                gi.wf(),
                gi.same_curve(*self),
                1 <= order,
                infinity == spec_infinity(self.a, self.b),
                kfold(*self, order as nat) == Ok::<ECPoint, FeltError>(gi),
                forall|j: nat|
                    1 <= j < order ==> kfold(*self, j) != Ok::<ECPoint, FeltError>(
                        spec_infinity(self.a, self.b),
                    ),
            decreases u64::MAX - order,
        {
            if order == u64::MAX {
                proof {
                    assert forall|j: nat|
                        1 <= j <= u64::MAX implies kfold(*self, j) != Ok::<ECPoint, FeltError>(
                        spec_infinity(self.a, self.b),
                    ) by {
                        if j == u64::MAX {
                            assert(kfold(*self, j) == Ok::<ECPoint, FeltError>(gi));
                        }
                    }
                }
                return None;
            }
            let ghost prev = gi;
            let ghost prev_order = order as nat;
            order = order + 1;
            gi = match gi.add(self) {
                Ok(v) => v,
                Err(e) => {
                    proof {
                        assert(kfold(*self, prev_order + 1) is Err);
                        assert forall|j: nat|
                            1 <= j <= u64::MAX implies kfold(*self, j) != Ok::<
                            ECPoint,
                            FeltError,
                        >(spec_infinity(self.a, self.b)) by {
                            if j > prev_order {
                                lemma_kfold_err_propagates(*self, prev_order + 1, j);
                            } else if j == prev_order {
                                assert(kfold(*self, j) == Ok::<ECPoint, FeltError>(prev));
                            }
                        }
                    }
                    return None;
                },
            };
            proof {
                assert(kfold(*self, prev_order + 1) == spec_add(prev, *self));
                assert forall|j: nat|
                    1 <= j < order implies kfold(*self, j) != Ok::<ECPoint, FeltError>(
                    spec_infinity(self.a, self.b),
                ) by {
                    if j == prev_order {
                        assert(kfold(*self, j) == Ok::<ECPoint, FeltError>(prev));
                    }
                }
            }
        }
        Some(order)
    }

    /// Exhaustive discrete-logarithm search: the smallest positive `k` with
    /// `k * self == target`, walking multiples by repeated addition and
    /// giving up once the walk reaches the identity (the cyclic subgroup is
    /// then exhausted, the identity itself not being a candidate match).
    /// Cost is linear in the order of the point.
    pub fn solve_dlp_brute_force(&self, target: ECPoint) -> (r: Option<u64>)
        requires
            self.wf(),
            target.wf(),
            self.same_curve(target),
        ensures
            match r {
                Some(k) => {
                    &&& 1 <= k
                    &&& kfold(*self, k as nat) == Ok::<ECPoint, FeltError>(target)
                    &&& forall|j: nat|
                        1 <= j < k ==> kfold(*self, j) != Ok::<ECPoint, FeltError>(target)
                },
                None => (exists|n: nat|
                    1 <= n <= u64::MAX && kfold(*self, n) == Ok::<ECPoint, FeltError>(
                        spec_infinity(self.a, self.b),
                    ) && (forall|j: nat|
                        1 <= j < n ==> kfold(*self, j) != Ok::<ECPoint, FeltError>(target))) || (
                forall|j: nat|
                    1 <= j <= u64::MAX ==> kfold(*self, j) != Ok::<ECPoint, FeltError>(target)),
            },
            // the walk stops upon reaching the identity without comparing it,
            // so the identity is never reported as a hit
            target == spec_infinity(self.a, self.b) ==> r is None,
    {
        let infinity = Self::infinity(self.a, self.b);
        let mut xp = *self;
        let mut x: u64 = 1;
        proof {
            assert(kfold(*self, 0) == Ok::<ECPoint, FeltError>(spec_infinity(self.a, self.b)));
            assert(kfold(*self, 1) == spec_add(spec_infinity(self.a, self.b), *self));
        }
        while xp != infinity
            invariant
                self.wf(),
                target.wf(),
                self.same_curve(target),
                xp.wf(),
                xp.same_curve(*self),
                1 <= x,
                infinity == spec_infinity(self.a, self.b),
                kfold(*self, x as nat) == Ok::<ECPoint, FeltError>(xp),
                forall|j: nat|
                    1 <= j < x ==> kfold(*self, j) != Ok::<ECPoint, FeltError>(target),
            decreases u64::MAX - x,
        {
            if xp == target {
                return Some(x);
            }
            if x == u64::MAX {
                proof {
                    assert forall|j: nat|
                        1 <= j <= u64::MAX implies kfold(*self, j) != Ok::<ECPoint, FeltError>(
                        target,
                    ) by {
                        if j == u64::MAX {
                            assert(kfold(*self, j) == Ok::<ECPoint, FeltError>(xp));
                        }
                    }
                }
                return None;
            }
            let ghost prev = xp;
            let ghost prev_x = x as nat;
            x = x + 1;
            xp = match xp.add(self) {
                Ok(v) => v,
                Err(e) => {
                    proof {
                        assert(kfold(*self, prev_x + 1) is Err);
                        assert forall|j: nat|
                            1 <= j <= u64::MAX implies kfold(*self, j) != Ok::<
                            ECPoint,
                            FeltError,
                        >(target) by {
                            if j > prev_x {
                                lemma_kfold_err_propagates(*self, prev_x + 1, j);
                            } else if j == prev_x {
                                assert(kfold(*self, j) == Ok::<ECPoint, FeltError>(prev));
                            }
                        }
                    }
                    return None;
                },
            };
            proof {
                assert(kfold(*self, prev_x + 1) == spec_add(prev, *self));
                assert forall|j: nat|
                    1 <= j < x implies kfold(*self, j) != Ok::<ECPoint, FeltError>(target) by {
                    if j == prev_x {
                        assert(kfold(*self, j) == Ok::<ECPoint, FeltError>(prev));
                    }
                }
            }
        }
        proof {
            let n = x as nat;
            assert(1 <= n <= u64::MAX && kfold(*self, n) == Ok::<ECPoint, FeltError>(
                spec_infinity(self.a, self.b),
            ) && (forall|j: nat|
                1 <= j < n ==> kfold(*self, j) != Ok::<ECPoint, FeltError>(target)));
        }
        None
    }

    /// Baby-step giant-step discrete logarithm: finds a positive `k` with
    /// `k * self == target` in roughly the square root of the order of
    /// `self`, in time and table space. Baby steps tabulate `i * self` for
    /// `i = 1 .. m-1` below the square-root bound `m`; giant steps probe
    /// `target - j * (m * self)` against the table for `j = 0 .. m-1` in
    /// ascending order. A candidate hit is confirmed against scalar
    /// multiplication before it is returned, so every answer satisfies
    /// `k * self == target` and `1 <= k <= order`. "Not found" is an
    /// ordinary outcome, never an error: it means the order walk reached no
    /// identity, a group-law step of the search failed (possible only for a
    /// composite modulus), every defined probe missed the table, or the one
    /// candidate found failed its confirmation.
    pub fn solve_dlp_baby_step_giant_step(&self, target: ECPoint) -> (r: Option<u64>)
        requires
            self.wf(),
            target.wf(),
            self.same_curve(target),
        ensures
            match r {
                Some(k) => {
                    &&& 1 <= k
                    &&& spec_mul_loop(spec_infinity(self.a, self.b), *self, k as nat) == Ok::<
                        ECPoint,
                        FeltError,
                    >(target)
                    &&& exists|o: nat| #[trigger] is_order(*self, o) && o <= u64::MAX && k <= o
                },
                None => (forall|j: nat|
                    1 <= j <= u64::MAX ==> kfold(*self, j) != Ok::<ECPoint, FeltError>(
                        spec_infinity(self.a, self.b),
                    )) || (exists|o: nat, m: nat|
                    {
                        &&& is_order(*self, o)
                        &&& o <= u64::MAX
                        &&& #[trigger] is_ceil_sqrt(o, m)
                        &&& ({
                            ||| (exists|i: nat|
                                1 <= i <= m && (#[trigger] kfold(*self, i)) is Err)
                            ||| bsgs_giant_stride(*self, m) is Err
                            ||| (exists|j: nat|
                                j < m && (#[trigger] bsgs_probe(*self, target, m, j)) is Err)
                            ||| (exists|j: nat, i: nat|
                                j < m && 1 <= i < m && #[trigger] bsgs_pair_matches(
                                    *self,
                                    target,
                                    m,
                                    j,
                                    i,
                                ) && !(1 <= j * m + i <= o && spec_mul_loop(
                                    spec_infinity(self.a, self.b),
                                    *self,
                                    j * m + i,
                                ) == Ok::<ECPoint, FeltError>(target)))
                            ||| (forall|j: nat, i: nat|
                                j < m && 1 <= i < m ==> !(#[trigger] bsgs_pair_matches(
                                    *self,
                                    target,
                                    m,
                                    j,
                                    i,
                                )))
                        })
                    }),
            },
    {
        let o = match self.order() {
            Some(o) => o,
            None => {
                return None;
            },
        };
        let m = ceil_sqrt(o);
        let mut baby_steps: HashMap<u64, u64> = HashMap::new();
        let mut pi = *self;
        let mut i: u64 = 1;
        proof {
            assert(kfold(*self, 0) == Ok::<ECPoint, FeltError>(spec_infinity(self.a, self.b)));
            assert(kfold(*self, 1) == spec_add(spec_infinity(self.a, self.b), *self));
        }
        while i < m
            invariant
                self.wf(),
                pi.wf(),
                pi.same_curve(*self),
                1 <= i <= m,
                1 <= m <= 0x1_0000_0000,
                1 <= o,
                is_order(*self, o as nat),
                is_ceil_sqrt(o as nat, m as nat),
                kfold(*self, i as nat) == Ok::<ECPoint, FeltError>(pi),
                baby_table_inv(baby_steps@, *self, m as nat),
                forall|i2: nat|
                    1 <= i2 < i ==> ((#[trigger] kfold(*self, i2)) is Ok && !kfold(
                        *self,
                        i2,
                    )->Ok_0.infinity && baby_steps@.contains_key(
                        (spec_point_key(kfold(*self, i2)->Ok_0)) as u64,
                    )),
            decreases m - i,
        {
            proof {
                // i stays below the order, so the walk has not reached the
                // identity and the point has a well-defined key
                assert(m - 1 < o) by (nonlinear_arith)
                    requires
                        (m - 1) * (m - 1) < o,
                        1 <= o,
                        1 <= m,
                ;
                if pi.infinity {
                    assert(pi == spec_infinity(self.a, self.b));
                }
            }
            let key = point_key(&pi);
            baby_steps.insert(key, i);
            proof {
                assert forall|i2: nat|
                    1 <= i2 < i + 1 implies ((#[trigger] kfold(*self, i2)) is Ok && !kfold(
                    *self,
                    i2,
                )->Ok_0.infinity && baby_steps@.contains_key(
                    (spec_point_key(kfold(*self, i2)->Ok_0)) as u64,
                )) by {
                    if i2 == i as nat {
                        assert((spec_point_key(pi)) as u64 == key);
                    }
                }
            }
            pi = match pi.add(self) {
                Ok(v) => v,
                Err(_) => {
                    proof {
                        assert(kfold(*self, (i + 1) as nat) is Err);
                        assert(1 <= (i + 1) as nat <= m as nat && (kfold(
                            *self,
                            (i + 1) as nat,
                        )) is Err);
                        assert(is_order(*self, o as nat) && o as nat <= u64::MAX
                            && is_ceil_sqrt(o as nat, m as nat));
                    }
                    return None;
                },
            };
            i = i + 1;
        }
        let mp = match self.mul(m) {
            Ok(v) => v,
            Err(_) => {
                proof {
                    assert(bsgs_giant_stride(*self, m as nat) is Err);
                    assert(is_order(*self, o as nat) && o as nat <= u64::MAX
                        && is_ceil_sqrt(o as nat, m as nat));
                }
                return None;
            },
        };
        let mut jmp = Self::infinity(self.a, self.b);
        let mut j: u64 = 0;
        proof {
            assert(kfold(mp, 0) == Ok::<ECPoint, FeltError>(spec_infinity(mp.a, mp.b)));
        }
        while j < m
            invariant
                self.wf(),
                target.wf(),
                self.same_curve(target),
                jmp.wf(),
                jmp.same_curve(*self),
                mp.wf(),
                mp.same_curve(*self),
                j <= m,
                1 <= m <= 0x1_0000_0000,
                1 <= o,
                is_order(*self, o as nat),
                is_ceil_sqrt(o as nat, m as nat),
                bsgs_giant_stride(*self, m as nat) == Ok::<ECPoint, FeltError>(mp),
                kfold(mp, j as nat) == Ok::<ECPoint, FeltError>(jmp),
                baby_table_inv(baby_steps@, *self, m as nat),
                forall|i2: nat|
                    1 <= i2 < m ==> ((#[trigger] kfold(*self, i2)) is Ok && !kfold(
                        *self,
                        i2,
                    )->Ok_0.infinity && baby_steps@.contains_key(
                        (spec_point_key(kfold(*self, i2)->Ok_0)) as u64,
                    )),
                forall|j2: nat, i2: nat|
                    j2 < j && 1 <= i2 < m ==> !(#[trigger] bsgs_pair_matches(
                        *self,
                        target,
                        m as nat,
                        j2,
                        i2,
                    )),
            decreases m - j,
        {
            let q = match target.add(&jmp.neg()) {
                Ok(v) => v,
                Err(_) => {
                    proof {
                        assert(bsgs_probe(*self, target, m as nat, j as nat) is Err);
                        assert((j as nat) < m as nat && (bsgs_probe(
                            *self,
                            target,
                            m as nat,
                            j as nat,
                        )) is Err);
                        assert(is_order(*self, o as nat) && o as nat <= u64::MAX
                            && is_ceil_sqrt(o as nat, m as nat));
                    }
                    return None;
                },
            };
            proof {
                assert(bsgs_probe(*self, target, m as nat, j as nat) == Ok::<
                    ECPoint,
                    FeltError,
                >(q));
            }
            if !q.infinity {
                let qk = point_key(&q);
                match baby_steps.get(&qk) {
                    Some(i_found) => {
                        let i = *i_found;
                        proof {
                            // the table entry is a baby step whose point
                            // carries q's key; keys decompose uniquely, so
                            // the two points coincide and the pair matches
                            assert(baby_steps@.contains_key(qk));
                            let pti = kfold(*self, i as nat)->Ok_0;
                            lemma_point_key_injective(pti, q);
                            assert(pti == q);
                            assert(bsgs_pair_matches(*self, target, m as nat, j as nat, i as nat));
                            assert(m * j + i < m * m) by (nonlinear_arith)
                                requires
                                    j < m,
                                    1 <= i < m,
                            ;
                            assert(m * m <= 0x1_0000_0000_0000_0000) by (nonlinear_arith)
                                requires
                                    m <= 0x1_0000_0000,
                            ;
                            assert(m * j + i == j * m + i) by (nonlinear_arith);
                            assert(1 <= m * j + i) by (nonlinear_arith)
                                requires
                                    1 <= i,
                            ;
                        }
                        let k = m * j + i;
                        if k <= o {
                            match self.mul(k) {
                                Ok(kp) => {
                                    if kp == target {
                                        proof {
                                            assert(is_order(*self, o as nat) && o as nat
                                                <= u64::MAX && k as nat <= o as nat);
                                        }
                                        return Some(k);
                                    } else {
                                        proof {
                                            assert(k as nat == (j as nat) * (m as nat) + (
                                            i as nat));
                                            assert(spec_mul_loop(
                                                spec_infinity(self.a, self.b),
                                                *self,
                                                (j as nat) * (m as nat) + (i as nat),
                                            ) != Ok::<ECPoint, FeltError>(target));
                                        }
                                        return None;
                                    }
                                },
                                Err(_) => {
                                    proof {
                                        assert(k as nat == (j as nat) * (m as nat) + (i as nat));
                                        assert(spec_mul_loop(
                                            spec_infinity(self.a, self.b),
                                            *self,
                                            (j as nat) * (m as nat) + (i as nat),
                                        ) is Err);
                                    }
                                    return None;
                                },
                            }
                        } else {
                            proof {
                                assert(k as nat == (j as nat) * (m as nat) + (i as nat));
                                assert((j as nat) * (m as nat) + (i as nat) > o as nat);
                            }
                            return None;
                        }
                    },
                    None => {
                        proof {
                            assert forall|i2: nat|
                                1 <= i2 < m as nat implies !bsgs_pair_matches(
                                *self,
                                target,
                                m as nat,
                                j as nat,
                                i2,
                            ) by {
                                if kfold(*self, i2) is Ok && kfold(*self, i2)->Ok_0 == q {
                                    assert(baby_steps@.contains_key(
                                        (spec_point_key(kfold(*self, i2)->Ok_0)) as u64,
                                    ));
                                    assert((spec_point_key(q)) as u64 == qk);
                                }
                            }
                        }
                    },
                }
            } else {
                proof {
                    // baby steps are affine points; an identity probe misses
                    assert forall|i2: nat|
                        1 <= i2 < m as nat implies !bsgs_pair_matches(
                        *self,
                        target,
                        m as nat,
                        j as nat,
                        i2,
                    ) by {}
                }
            }
            jmp = match jmp.add(&mp) {
                Ok(v) => v,
                Err(_) => {
                    proof {
                        assert(kfold(mp, (j + 1) as nat) is Err);
                        if j + 1 < m {
                            assert(((j + 1) as nat) < m as nat && (bsgs_probe(
                                *self,
                                target,
                                m as nat,
                                (j + 1) as nat,
                            )) is Err);
                        } else {
                            assert forall|j2: nat, i2: nat|
                                j2 < m as nat && 1 <= i2 < m as nat implies !(
                            #[trigger] bsgs_pair_matches(*self, target, m as nat, j2, i2)) by {}
                        }
                        assert(is_order(*self, o as nat) && o as nat <= u64::MAX
                            && is_ceil_sqrt(o as nat, m as nat));
                    }
                    return None;
                },
            };
            j = j + 1;
        }
        proof {
            assert(is_order(*self, o as nat) && o as nat <= u64::MAX && is_ceil_sqrt(
                o as nat,
                m as nat,
            ));
            assert(forall|j2: nat, i2: nat|
                j2 < m as nat && 1 <= i2 < m as nat ==> !(#[trigger] bsgs_pair_matches(
                    *self,
                    target,
                    m as nat,
                    j2,
                    i2,
                )));
        }
        None
    }

    /// Every point of the curve `(a, b)`: the identity plus each affine
    /// `(x, y)` pair satisfying the curve equation, found by trying the
    /// validating constructor over the full coordinate grid. Each point of
    /// the curve appears exactly once. Cost is quadratic in the modulus;
    /// a diagnostic for small curves only.
    pub fn get_all_points(a: Felt, b: Felt) -> (points: Vec<ECPoint>)
        requires
            a.wf(),
            b.wf(),
            a.modulus == b.modulus,
        ensures
            forall|pt: ECPoint| #[trigger] points@.contains(pt) <==> (pt == spec_infinity(a, b)
                || valid_affine(pt, a, b)),
            distinct_points(points@),
    {
        let m = a.modulus();
        let mut points: Vec<ECPoint> = Vec::new();
        points.push(ECPoint::infinity(a, b));
        let mut x: u64 = 0;
        while x < m
            invariant
                a.wf(),
                b.wf(),
                a.modulus == b.modulus,
                m == a.modulus,
                x <= m,
                forall|pt: ECPoint| #[trigger] points@.contains(pt) <==> (pt == spec_infinity(
                    a,
                    b,
                ) || (valid_affine(pt, a, b) && pt.x.value < x)),
                distinct_points(points@),
            decreases m - x,
        {
            let mut y: u64 = 0;
            while y < m
                invariant
                    a.wf(),
                    b.wf(),
                    a.modulus == b.modulus,
                    m == a.modulus,
                    x < m,
                    y <= m,
                    forall|pt: ECPoint| #[trigger] points@.contains(pt) <==> (pt
                        == spec_infinity(a, b) || (valid_affine(pt, a, b) && (pt.x.value < x || (
                    pt.x.value == x && pt.y.value < y)))),
                    distinct_points(points@),
                decreases m - y,
            {
                let felt_x = Felt::new(x, m);
                let felt_y = Felt::new(y, m);
                proof {
                    lemma_small_mod(x as nat, m as nat);
                    lemma_small_mod(y as nat, m as nat);
                }
                match ECPoint::new(felt_x, felt_y, a, b) {
                    Ok(point) => {
                        proof {
                            assert forall|i1: int| 0 <= i1 < points@.len() implies points@[i1]
                                != point by {
                                points@.lemma_index_contains(i1);
                            }
                        }
                        points.push(point);
                        proof {
                            assert forall|pt: ECPoint| #[trigger] points@.contains(pt) implies (
                            pt == spec_infinity(a, b) || (valid_affine(pt, a, b) && (pt.x.value
                                < x || (pt.x.value == x && pt.y.value < y + 1)))) by {}
                            assert forall|pt: ECPoint|
                                (pt == spec_infinity(a, b) || (valid_affine(pt, a, b) && (
                                pt.x.value < x || (pt.x.value == x && pt.y.value < y
                                    + 1)))) implies #[trigger] points@.contains(pt) by {
                                if valid_affine(pt, a, b) && pt.x.value == x && pt.y.value == y {
                                    assert(pt.x == felt_x);
                                    assert(pt.y == felt_y);
                                    assert(pt == point);
                                }
                            }
                        }
                    },
                    Err(_) => {
                        proof {
                            assert forall|pt: ECPoint|
                                (pt == spec_infinity(a, b) || (valid_affine(pt, a, b) && (
                                pt.x.value < x || (pt.x.value == x && pt.y.value < y
                                    + 1)))) implies #[trigger] points@.contains(pt) by {
                                if valid_affine(pt, a, b) && pt.x.value == x && pt.y.value == y {
                                    assert(pt.x == felt_x);
                                    assert(pt.y == felt_y);
                                    assert(on_curve(
                                        felt_x.value as int,
                                        felt_y.value as int,
                                        a.value as int,
                                        b.value as int,
                                        a.modulus as int,
                                    ));
                                }
                            }
                        }
                    },
                }
                y = y + 1;
            }
            x = x + 1;
        }
        points
    }

    /// The additive inverse: infinity maps to itself, an affine point to its
    /// mirror image over the x-axis.
    pub fn neg(&self) -> (r: ECPoint)
        requires
            self.wf(),
        ensures
            r == spec_neg(*self),
            r.wf(),
    {
        if self.infinity {
            return *self;
        }
        let y = self.y.neg();
        proof {
            lemma_neg_on_curve(
                self.x.value as int,
                self.y.value as int,
                y.value as int,
                self.a.value as int,
                self.b.value as int,
                self.a.modulus as int,
            );
        }
        ECPoint { x: self.x, y, a: self.a, b: self.b, infinity: false }
    }

    /// The characters of the human-readable rendering: `"(<x>, <y>)"` for an
    /// affine point, `"Infinity"` for the identity.
    pub open spec fn display_seq(self) -> Seq<char> {
        if self.infinity {
            "Infinity"@
        } else {
            "("@ + crate::decimal::dec_digits(self.x.value as nat) + ", "@
                + crate::decimal::dec_digits(self.y.value as nat) + ")"@
        }
    }

    /// Renders the point as `"(<x>, <y>)"`, or `"Infinity"` for the
    /// identity.
    pub fn to_display_string(&self) -> (s: String)
        ensures
            s@ == self.display_seq(),
    {
        if self.infinity {
            String::from_str("Infinity")
        } else {
            let mut s = String::from_str("(");
            let xs = crate::decimal::u64_to_decimal(self.x.value);
            s.append(xs.as_str());
            s.append(", ");
            let ys = crate::decimal::u64_to_decimal(self.y.value);
            s.append(ys.as_str());
            s.append(")");
            s
        }
    }
}

/// The least `m` with `m * m >= n`: the ceiling of the integer square root.
fn ceil_sqrt(n: u64) -> (m: u64)
    requires
        1 <= n,
    ensures
        1 <= m <= 0x1_0000_0000,
        (m - 1) * (m - 1) < n <= m * m,
{
    let mut m: u64 = 1;
    while m < 0x1_0000_0000
        invariant
            1 <= m <= 0x1_0000_0000,
            (m - 1) * (m - 1) < n,
        decreases 0x1_0000_0000 - m,
    {
        proof {
            assert(m * m < 0x1_0000_0000_0000_0000) by (nonlinear_arith)
                requires
                    m < 0x1_0000_0000,
            ;
        }
        if n <= m * m {
            return m;
        }
        m = m + 1;
    }
    proof {
        assert(n <= m * m) by (nonlinear_arith)
            requires
                m == 0x1_0000_0000,
                n <= 0xffff_ffff_ffff_ffff,
        ;
    }
    m
}

/// A collision-free `u64` key for an affine point: `x * 2^32 + y`. Both
/// coordinates are reduced below the modulus bound, so the pair decomposes
/// uniquely.
fn point_key(pt: &ECPoint) -> (k: u64)
    requires
        pt.wf(),
        !pt.infinity,
    ensures
        k == pt.x.value * 0x1_0000_0000 + pt.y.value,
{
    proof {
        assert(pt.x.value * 0x1_0000_0000 + pt.y.value < 0x1_0000_0000_0000_0000)
            by (nonlinear_arith)
            requires
                pt.x.value < 0x1_0000_0000,
                pt.y.value < 0x1_0000_0000,
        ;
    }
    pt.x.value * 0x1_0000_0000 + pt.y.value
}

/// Equal table keys identify equal coordinates: with both coordinates below
/// `2^32` the key decomposes uniquely.
proof fn lemma_point_key_injective(p1: ECPoint, p2: ECPoint)
    requires
        p1.x.value < 0x1_0000_0000,
        p1.y.value < 0x1_0000_0000,
        p2.x.value < 0x1_0000_0000,
        p2.y.value < 0x1_0000_0000,
        spec_point_key(p1) == spec_point_key(p2),
    ensures
        p1.x.value == p2.x.value,
        p1.y.value == p2.y.value,
{
    assert(p1.x.value == p2.x.value && p1.y.value == p2.y.value) by (nonlinear_arith)
        requires
            p1.x.value < 0x1_0000_0000,
            p1.y.value < 0x1_0000_0000,
            p2.x.value < 0x1_0000_0000,
            p2.y.value < 0x1_0000_0000,
            p1.x.value * 0x1_0000_0000 + p1.y.value == p2.x.value * 0x1_0000_0000 + p2.y.value,
    ;
}

/// The value computed for the doubling slope's numerator and denominator by
/// the field operations equals the reduced spec numerator and denominator.
proof fn lemma_num_den_doubling(pt: ECPoint)
    requires
        pt.wf(),
        !pt.infinity,
    ensures
        Felt::spec_new(3, pt.a.modulus).spec_mul(pt.x.spec_pow(2)).spec_add(pt.a).value
            == spec_num(pt, pt),
        Felt::spec_new(2, pt.a.modulus).spec_mul(pt.y).value == spec_den(pt, pt),
{
    let p = pt.a.modulus as int;
    let xv = pt.x.value as int;
    let yv = pt.y.value as int;
    let av = pt.a.value as int;
    reveal_with_fuel(pow, 3);
    assert(pow(xv, 2) == xv * (xv * 1));
    assert(xv * (xv * 1) == xv * xv) by (nonlinear_arith);
    let x2 = pt.x.spec_pow(2);
    let f3 = Felt::spec_new(3, pt.a.modulus);
    let f2 = Felt::spec_new(2, pt.a.modulus);
    let t = f3.spec_mul(x2);
    let num = t.spec_add(pt.a);
    // num.value == (3 * x^2 + a) % p
    lemma_cong_mod(xv * xv, p);
    lemma_cong_mod(3, p);
    lemma_cong_mod(f3.value * x2.value, p);
    lemma_cong_mul(f3.value as int, 3, x2.value as int, xv * xv, p);
    lemma_cong_trans(t.value as int, f3.value * x2.value, 3 * (xv * xv), p);
    lemma_cong_mod(t.value + av, p);
    lemma_cong_refl(av, p);
    lemma_cong_add(t.value as int, 3 * (xv * xv), av, av, p);
    lemma_cong_trans(num.value as int, t.value + av, 3 * (xv * xv) + av, p);
    assert(3 * (xv * xv) == 3 * xv * xv) by (nonlinear_arith);
    lemma_cong_mod(3 * xv * xv + av, p);
    lemma_cong_trans(num.value as int, 3 * xv * xv + av, (3 * xv * xv + av) % p, p);
    lemma_mod_bound(3 * xv * xv + av, p);
    lemma_cong_bounded_equal(num.value as int, (3 * xv * xv + av) % p, p);
    // den.value == (2 * y) % p
    let den = f2.spec_mul(pt.y);
    lemma_cong_mod(2, p);
    lemma_cong_refl(yv, p);
    lemma_cong_mod(f2.value * yv, p);
    lemma_cong_mul(f2.value as int, 2, yv, yv, p);
    lemma_cong_trans(den.value as int, f2.value * yv, 2 * yv, p);
    lemma_cong_mod(2 * yv, p);
    lemma_cong_trans(den.value as int, 2 * yv, (2 * yv) % p, p);
    lemma_mod_bound(2 * yv, p);
    lemma_cong_bounded_equal(den.value as int, (2 * yv) % p, p);
}

/// Given a reduced slope value satisfying the slope congruence with an
/// invertible denominator, the reduced chord-tangent result coordinates land
/// on the curve and [`spec_slope_point`] returns exactly that point.
proof fn lemma_slope_result(p1: ECPoint, p2: ECPoint, sv: int, xv: int, yv: int)
    requires
        p1.wf(),
        p2.wf(),
        p1.same_curve(p2),
        !p1.infinity,
        !p2.infinity,
        0 <= sv < p1.a.modulus,
        cong(sv * spec_den(p1, p2), spec_num(p1, p2), p1.a.modulus as int),
        has_inverse(spec_den(p1, p2), p1.a.modulus as int),
        gcd(p1.a.modulus as nat, spec_den(p1, p2) as nat) == 1,
        0 <= xv < p1.a.modulus,
        cong(xv, sv * sv - p1.x.value - p2.x.value, p1.a.modulus as int),
        0 <= yv < p1.a.modulus,
        cong(yv, sv * (p1.x.value - xv) - p1.y.value, p1.a.modulus as int),
    ensures
        on_curve(xv, yv, p1.a.value as int, p1.b.value as int, p1.a.modulus as int),
        spec_slope_point(p1, p2, spec_num(p1, p2), spec_den(p1, p2)) == Ok::<ECPoint, FeltError>(
            ECPoint {
                x: Felt { value: xv as u64, modulus: p1.a.modulus },
                y: Felt { value: yv as u64, modulus: p1.a.modulus },
                a: p1.a,
                b: p1.b,
                infinity: false,
            },
        ),
{
    let p = p1.a.modulus as int;
    let m = p1.a.modulus;
    let x1 = p1.x.value as int;
    let y1 = p1.y.value as int;
    let x2 = p2.x.value as int;
    let y2 = p2.y.value as int;
    let av = p1.a.value as int;
    let bv = p1.b.value as int;
    let num = spec_num(p1, p2);
    let den = spec_den(p1, p2);
    // the denominator is nonzero, else its gcd with the modulus would be it
    assert(den != 0) by {
        crate::arith::lemma_gcd_zero(m as nat);
    }
    // the computed slope is the one the specification divides out
    crate::arith::lemma_div_unique(sv, num, den, p);
    // the specification's reduced coordinates coincide with xv and yv
    let x3s = (sv * sv - x1 - x2) % p;
    lemma_cong_mod(sv * sv - x1 - x2, p);
    lemma_mod_bound(sv * sv - x1 - x2, p);
    lemma_cong_trans(xv, sv * sv - x1 - x2, x3s, p);
    lemma_cong_bounded_equal(xv, x3s, p);
    let y3s = (sv * (x1 - x3s) - y1) % p;
    lemma_cong_mod(sv * (x1 - x3s) - y1, p);
    lemma_mod_bound(sv * (x1 - x3s) - y1, p);
    lemma_cong_trans(yv, sv * (x1 - xv) - y1, y3s, p);
    lemma_cong_bounded_equal(yv, y3s, p);
    // curve membership, by the tangent or the chord construction
    let t = choose|t: int| 0 <= t < p && #[trigger] mul_mod(t, den, p) == 1;
    assert(cong(t * den, 1, p)) by {
        lemma_small_mod(1, m as nat);
        vstd::arithmetic::div_mod::lemma_mod_equivalence(t * den, 1, p);
    }
    lemma_cong_refl(sv, p);
    lemma_cong_refl(t, p);
    if p1 == p2 {
        // slope congruence against the unreduced tangent numerator
        lemma_cong_mod(2 * y1, p);
        lemma_cong_mul(sv, sv, 2 * y1, den, p);
        lemma_cong_mod(3 * x1 * x1 + av, p);
        lemma_cong_trans(sv * (2 * y1), sv * den, num, p);
        lemma_cong_trans(sv * (2 * y1), num, 3 * x1 * x1 + av, p);
        lemma_tangent_on_curve(x1, y1, av, bv, sv, p);
        let x3c = sv * sv - x1 - x1;
        let y3c = sv * (x1 - x3c) - y1;
        // bridge from the unreduced coordinates to the reduced ones
        assert(cong(xv, x3c, p));
        lemma_cong_refl(y1, p);
        lemma_cong_sub(x1, x1, xv, x3c, p);
        lemma_cong_mul(sv, sv, x1 - xv, x1 - x3c, p);
        lemma_cong_sub(sv * (x1 - xv), sv * (x1 - x3c), y1, y1, p);
        lemma_cong_trans(yv, sv * (x1 - xv) - y1, y3c, p);
        lemma_on_curve_cong(xv, yv, x3c, y3c, av, bv, p);
    } else {
        // slope congruence against the unreduced chord numerator
        lemma_cong_mod(x2 - x1, p);
        lemma_cong_mul(sv, sv, x2 - x1, den, p);
        lemma_cong_mod(y2 - y1, p);
        lemma_cong_trans(sv * (x2 - x1), sv * den, num, p);
        lemma_cong_trans(sv * (x2 - x1), num, y2 - y1, p);
        // inverse witness against the unreduced denominator
        lemma_cong_mul(t, t, x2 - x1, den, p);
        lemma_cong_trans(t * (x2 - x1), t * den, 1, p);
        lemma_chord_on_curve(x1, y1, x2, y2, av, bv, sv, t, p);
        let x3c = sv * sv - x1 - x2;
        let y3c = sv * (x1 - x3c) - y1;
        assert(cong(xv, x3c, p));
        lemma_cong_refl(y1, p);
        lemma_cong_sub(x1, x1, xv, x3c, p);
        lemma_cong_mul(sv, sv, x1 - xv, x1 - x3c, p);
        lemma_cong_sub(sv * (x1 - xv), sv * (x1 - x3c), y1, y1, p);
        lemma_cong_trans(yv, sv * (x1 - xv) - y1, y3c, p);
        lemma_on_curve_cong(xv, yv, x3c, y3c, av, bv, p);
    }
}

} // verus!
