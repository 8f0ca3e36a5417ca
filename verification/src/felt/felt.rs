use crate::arith::{
    cong, gcd, has_inverse, lemma_cong_bounded_equal, lemma_cong_mod, lemma_cong_mul,
    lemma_cong_pow, lemma_cong_sym, lemma_cong_trans, lemma_gcd_zero, mul_mod,
};
use vstd::arithmetic::div_mod::{lemma_fundamental_div_mod, lemma_mod_bound, lemma_small_mod};
use vstd::arithmetic::power::pow;
use vstd::math::abs;
use vstd::prelude::*;

use super::felt_errors::FeltError;

verus! {

/// Largest modulus the fixed-width representation supports: with
/// `modulus <= 2^32` the product of two reduced values fits in a `u64`,
/// so no intermediate of any field operation can wrap.
pub const MAX_MODULUS: u64 = 0x1_0000_0000;

/// A residue modulo a fixed modulus.
///
/// Invariant ([`Felt::wf`]): `1 < modulus <= MAX_MODULUS` and
/// `value < modulus`; every constructor and operation returns a reduced value.
/// Two elements are equal exactly when both value and modulus agree; elements
/// with different moduli never mix (the operations require equal moduli).
#[derive(Debug, Clone, Copy, PartialEq, Eq, Hash, Structural)]
pub struct Felt {
    pub value: u64,
    pub modulus: u64,
}

impl Felt {
    /// The representation invariant: the modulus is meaningful and small
    /// enough that arithmetic cannot overflow, and the value is reduced.
    pub open spec fn wf(self) -> bool {
        &&& 1 < self.modulus <= MAX_MODULUS
        &&& self.value < self.modulus
    }

    /// What [`Felt::new`] returns.
    pub open spec fn spec_new(value: u64, modulus: u64) -> Felt {
        Felt { value: value % modulus, modulus }
    }

    /// What [`Felt::add`] returns.
    pub open spec fn spec_add(self, other: Felt) -> Felt {
        Felt { value: ((self.value + other.value) % (self.modulus as int)) as u64, modulus: self.modulus }
    }

    /// What [`Felt::sub`] returns.
    pub open spec fn spec_sub(self, other: Felt) -> Felt {
        Felt { value: ((self.value - other.value) % (self.modulus as int)) as u64, modulus: self.modulus }
    }

    /// What [`Felt::mul`] returns.
    pub open spec fn spec_mul(self, other: Felt) -> Felt {
        Felt { value: ((self.value * other.value) % (self.modulus as int)) as u64, modulus: self.modulus }
    }

    /// What [`Felt::neg`] returns: the additive inverse, with `neg(0) == 0`.
    pub open spec fn spec_neg(self) -> Felt {
        Felt { value: ((self.modulus - self.value) % (self.modulus as int)) as u64, modulus: self.modulus }
    }

    /// Builds the least non-negative residue of `value` modulo `modulus`.
    ///
    /// The bound on `modulus` is the documented overflow precondition: all
    /// arithmetic on the resulting element stays within `u64`.
    pub fn new(value: u64, modulus: u64) -> (r: Felt)
        requires
            1 < modulus <= MAX_MODULUS,
        ensures
            r == Self::spec_new(value, modulus),
            r.value == value % modulus,
            r.modulus == modulus,
            r.wf(),
    {
        Felt { value: value % modulus, modulus }
    }

    /// The reduced value of the residue.
    pub fn value(&self) -> (r: u64)
        ensures
            r == self.value,
    {
        self.value
    }

    /// The modulus the residue lives under.
    pub fn modulus(&self) -> (r: u64)
        ensures
            r == self.modulus,
    {
        self.modulus
    }

    /// Field addition; both operands must share one modulus.
    pub fn add(self, other: Felt) -> (r: Felt)
        requires
            self.wf(),
            other.wf(),
            self.modulus == other.modulus,
        ensures
            r == self.spec_add(other),
            r.wf(),
            r.modulus == self.modulus,
            cong(r.value as int, self.value + other.value, self.modulus as int),
    {
        let r = Felt { value: (self.value + other.value) % self.modulus, modulus: self.modulus };
        proof {
            lemma_cong_mod(self.value + other.value, self.modulus as int);
        }
        r
    }

    /// Field subtraction; both operands must share one modulus.
    pub fn sub(self, other: Felt) -> (r: Felt)
        requires
            self.wf(),
            other.wf(),
            self.modulus == other.modulus,
        ensures
            r == self.spec_sub(other),
            r.wf(),
            r.modulus == self.modulus,
            cong(r.value as int, self.value - other.value, self.modulus as int),
    {
        let value = if self.value < other.value {
            (self.value + self.modulus) - other.value
        } else {
            self.value - other.value
        };
        proof {
            let p = self.modulus as int;
            let d = self.value - other.value;
            if self.value < other.value {
                vstd::arithmetic::div_mod::lemma_mod_add_multiples_vanish(d, p);
            }
            lemma_small_mod(value as nat, self.modulus as nat);
            assert(value as int == d % p);
            lemma_cong_mod(d, p);
            lemma_cong_sym(d, d % p, p);
        }
        Felt { value, modulus: self.modulus }
    }

    /// Field multiplication; both operands must share one modulus.
    pub fn mul(self, other: Felt) -> (r: Felt)
        requires
            self.wf(),
            other.wf(),
            self.modulus == other.modulus,
        ensures
            r == self.spec_mul(other),
            r.wf(),
            r.modulus == self.modulus,
            cong(r.value as int, self.value * other.value, self.modulus as int),
    {
        proof {
            assert(self.value * other.value <= (MAX_MODULUS - 1) * (MAX_MODULUS - 1))
                by (nonlinear_arith)
                requires
                    self.value < MAX_MODULUS,
                    other.value < MAX_MODULUS,
            ;
        }
        let r = Felt { value: (self.value * other.value) % self.modulus, modulus: self.modulus };
        proof {
            lemma_cong_mod(self.value * other.value, self.modulus as int);
        }
        r
    }

    /// Additive inverse: `modulus - value`, reduced, so that `neg(0) == 0`.
    pub fn neg(self) -> (r: Felt)
        requires
            self.wf(),
        ensures
            r == self.spec_neg(),
            r.wf(),
            r.modulus == self.modulus,
            cong(r.value as int, -(self.value as int), self.modulus as int),
    {
        let r = Felt { value: (self.modulus - self.value) % self.modulus, modulus: self.modulus };
        proof {
            let p = self.modulus as int;
            vstd::arithmetic::div_mod::lemma_mod_add_multiples_vanish(-(self.value as int), p);
            assert(r.value as int == (-(self.value as int)) % p);
            lemma_cong_mod(-(self.value as int), p);
        }
        r
    }

    /// Multiplicative inverse by the extended Euclidean algorithm.
    ///
    /// Returns the unique reduced `t` with `value * t == 1 (mod modulus)`
    /// whenever `gcd(modulus, value) == 1`, and reports the element as not
    /// invertible otherwise (which includes `value == 0`).
    pub fn inverse(&self) -> (r: Result<Felt, FeltError>)
        requires
            self.wf(),
        ensures
            match r {
                Ok(i) => {
                    &&& gcd(self.modulus as nat, self.value as nat) == 1
                    &&& i.wf()
                    &&& i.modulus == self.modulus
                    &&& (i.value * self.value) % (self.modulus as int) == 1
                },
                Err(e) => {
                    &&& gcd(self.modulus as nat, self.value as nat) != 1
                    &&& e == FeltError::NotInvertible(self.value, self.modulus)
                },
            },
    {
        let p = self.modulus;
        let v = self.value;
        let mut t: i64 = 0;
        let mut new_t: i64 = 1;
        let mut r: u64 = p;
        let mut new_r: u64 = v;
        proof {
            let pi = p as int;
            vstd::arithmetic::div_mod::lemma_mod_multiples_basic(-1, pi);
            assert((0 * (v as int) - pi) == (-1) * pi) by (nonlinear_arith);
            assert(cong(0 * (v as int), pi, pi));
            assert(1 * (v as int) == v as int) by (nonlinear_arith);
            crate::arith::lemma_cong_refl(v as int, pi);
            assert(cong(1 * (v as int), v as int, pi));
            assert(abs(1) == 1);
            assert(abs(0) == 0);
            assert(pi * abs(1) + (v as int) * abs(0) == pi) by (nonlinear_arith);
        }
        while new_r != 0
            invariant
                1 < p <= MAX_MODULUS,
                v < p,
                p == self.modulus,
                v == self.value,
                1 <= r <= p,
                new_r < r,
                gcd(r as nat, new_r as nat) == gcd(p as nat, v as nat),
                cong(t * v, r as int, p as int),
                cong(new_t * v, new_r as int, p as int),
                t * new_t <= 0,
                r * abs(new_t as int) + new_r * abs(t as int) == p,
                abs(t as int) <= p,
            decreases new_r,
        {
            let quotient: u64 = r / new_r;
            proof {
                lemma_euclid_step(
                    r as int,
                    new_r as int,
                    quotient as int,
                    t as int,
                    new_t as int,
                    p as int,
                    v as int,
                );
            }
            let prod: i64 = (quotient as i64) * new_t;
            let t_next: i64 = t - prod;
            let r_next: u64 = r % new_r;
            t = new_t;
            new_t = t_next;
            r = new_r;
            new_r = r_next;
        }
        if r > 1 {
            return Err(FeltError::NotInvertible(self.value, self.modulus));
        }
        // r == 1 here: gcd(p, v) == gcd(1, 0) == 1 and t * v == 1 (mod p)
        proof {
            let pi = p as int;
            assert(gcd(r as nat, 0) == r as nat);
            lemma_small_mod(1, p as nat);
            // t == p is impossible: p * v == 0 (mod p) cannot be 1 (mod p)
            if t == p {
                vstd::arithmetic::div_mod::lemma_mod_multiples_basic(v as int, pi);
                assert(t * v == (v as int) * pi) by (nonlinear_arith)
                    requires
                        t == pi,
                ;
                vstd::arithmetic::div_mod::lemma_mod_equivalence(t * v, 1, pi);
                assert(false);
            }
        }
        let value: u64 = if t < 0 {
            (t + (p as i64)) as u64
        } else {
            t as u64
        };
        proof {
            let pi = p as int;
            let ti = t as int;
            if ti < 0 {
                // (t + p) * v == t * v + p * v == 1 + 0 (mod p)
                vstd::arithmetic::div_mod::lemma_mod_multiples_basic(v as int, pi);
                assert(pi * v - 0 == (v as int) * pi) by (nonlinear_arith);
                assert(cong(pi * v, 0, pi));
                crate::arith::lemma_cong_add(ti * v, 1, pi * v, 0, pi);
                assert((ti + pi) * v == ti * v + pi * v) by (nonlinear_arith);
                assert(cong(value * v, 1, pi));
            }
            vstd::arithmetic::div_mod::lemma_mod_equivalence(value * v, 1, pi);
        }
        Ok(Felt { value, modulus: p })
    }

    /// The characters of the human-readable rendering,
    /// `"<value> (mod <modulus>)"`.
    pub open spec fn display_seq(self) -> Seq<char> {
        crate::decimal::dec_digits(self.value as nat) + " (mod "@ + crate::decimal::dec_digits(
            self.modulus as nat,
        ) + ")"@
    }

    /// Renders the element as `"<value> (mod <modulus>)"`.
    pub fn to_display_string(&self) -> (s: String)
        ensures
            s@ == self.display_seq(),
    {
        let mut s = crate::decimal::u64_to_decimal(self.value);
        s.append(" (mod ");
        let m = crate::decimal::u64_to_decimal(self.modulus);
        s.append(m.as_str());
        s.append(")");
        s
    }

    /// Field division: `self * other.inverse()`.
    ///
    /// Fails with [`FeltError::DivisionByZero`] when the divisor's value is 0
    /// (reported before attempting an inverse, for the clearer diagnostic) and
    /// with [`FeltError::NotInvertible`] when the divisor is not coprime to
    /// the modulus. On success the quotient is the unique reduced residue
    /// whose product with the divisor gives back `self`.
    pub fn div(self, other: Felt) -> (r: Result<Felt, FeltError>)
        requires
            self.wf(),
            other.wf(),
            self.modulus == other.modulus,
        ensures
            r is Ok <==> gcd(self.modulus as nat, other.value as nat) == 1,
            r == Err::<Felt, FeltError>(FeltError::DivisionByZero) <==> other.value == 0,
            other.value != 0 && gcd(self.modulus as nat, other.value as nat) != 1 ==> r == Err::<
                Felt,
                FeltError,
            >(FeltError::NotInvertible(other.value, other.modulus)),
            match r {
                Ok(q) => {
                    &&& q.wf()
                    &&& q.modulus == self.modulus
                    &&& cong(q.value * other.value, self.value as int, self.modulus as int)
                    &&& has_inverse(other.value as int, self.modulus as int)
                },
                Err(_) => true,
            },
    {
        if other.value == 0 {
            proof {
                lemma_gcd_zero(self.modulus as nat);
            }
            return Err(FeltError::DivisionByZero);
        }
        match other.inverse() {
            Err(e) => Err(e),
            Ok(i) => {
                let q = self.mul(i);
                proof {
                    let p = self.modulus as int;
                    // i is an inverse witness for the divisor
                    assert(mul_mod(i.value as int, other.value as int, p) == 1);
                    // q * other == self * (i * other) == self (mod p)
                    lemma_small_mod(1, self.modulus as nat);
                    vstd::arithmetic::div_mod::lemma_mod_equivalence(
                        i.value * other.value,
                        1,
                        p,
                    );
                    crate::arith::lemma_cong_refl(self.value as int, p);
                    lemma_cong_mul(
                        self.value as int,
                        self.value as int,
                        i.value * other.value,
                        1,
                        p,
                    );
                    assert((self.value * i.value) * other.value == self.value * (i.value
                        * other.value)) by (nonlinear_arith);
                    assert(self.value * 1 == self.value as int) by (nonlinear_arith);
                    crate::arith::lemma_cong_refl(other.value as int, p);
                    lemma_cong_mul(
                        q.value as int,
                        self.value * i.value,
                        other.value as int,
                        other.value as int,
                        p,
                    );
                    lemma_cong_trans(
                        q.value * other.value,
                        (self.value * i.value) * other.value,
                        self.value as int,
                        p,
                    );
                }
                Ok(q)
            },
        }
    }

    /// What [`Felt::pow`] returns: the exponent-fold product, reduced.
    pub open spec fn spec_pow(self, exponent: nat) -> Felt {
        Felt {
            value: (pow(self.value as int, exponent) % (self.modulus as int)) as u64,
            modulus: self.modulus,
        }
    }

    /// Square-and-multiply exponentiation; `pow(_, 0) == 1`.
    pub fn pow(&self, exponent: u64) -> (r: Felt)
        requires
            self.wf(),
        ensures
            r == self.spec_pow(exponent as nat),
            r.wf(),
            r.modulus == self.modulus,
    {
        let p_int: Ghost<int> = Ghost(self.modulus as int);
        let v0: Ghost<int> = Ghost(self.value as int);
        let mut result = Felt::new(1, self.modulus);
        let mut base = *self;
        let mut exp = exponent;
        proof {
            lemma_small_mod(1, self.modulus as nat);
            assert(result.value == 1);
            assert(1 * pow(v0@, exponent as nat) == pow(v0@, exponent as nat))
                by (nonlinear_arith);
            crate::arith::lemma_cong_refl(pow(v0@, exponent as nat), p_int@);
        }
        while exp > 0
            invariant
                result.wf(),
                base.wf(),
                result.modulus == self.modulus,
                base.modulus == self.modulus,
                self.wf(),
                p_int@ == self.modulus as int,
                cong(
                    result.value * pow(base.value as int, exp as nat),
                    pow(v0@, exponent as nat),
                    p_int@,
                ),
            decreases exp,
        {
            let ghost pre_result = result;
            let ghost pre_base = base;
            let ghost pre_exp = exp as nat;
            if exp % 2 == 1 {
                result = result.mul(base);
            }
            exp = exp / 2;
            base = base.mul(base);
            proof {
                lemma_pow_step(pre_result, pre_base, pre_exp, result, base, p_int@);
                lemma_cong_trans(
                    result.value * pow(base.value as int, exp as nat),
                    pre_result.value * pow(pre_base.value as int, pre_exp),
                    pow(v0@, exponent as nat),
                    p_int@,
                );
            }
        }
        proof {
            reveal(pow);
            assert(result.value * pow(base.value as int, 0) == result.value);
            lemma_mod_bound(pow(v0@, exponent as nat), p_int@);
            lemma_cong_mod(pow(v0@, exponent as nat), p_int@);
            lemma_cong_trans(
                result.value as int,
                pow(v0@, exponent as nat),
                pow(v0@, exponent as nat) % p_int@,
                p_int@,
            );
            lemma_cong_bounded_equal(
                result.value as int,
                pow(v0@, exponent as nat) % p_int@,
                p_int@,
            );
        }
        result
    }
}

/// One step of the extended Euclidean algorithm preserves its invariants.
///
/// The state is `(r, new_r)` descending through Euclid's remainders while
/// `(t, new_t)` tracks Bezout coefficients for the original value `v`:
/// `t * v == r (mod p)` and `new_t * v == new_r (mod p)`. The coefficients
/// alternate in sign, and `r * |new_t| + new_r * |t| == p` bounds their size,
/// which is what keeps the fixed-width arithmetic from overflowing.
proof fn lemma_euclid_step(r: int, new_r: int, q: int, t: int, new_t: int, p: int, v: int)
    requires
        1 < p,
        0 <= v < p,
        1 <= r <= p,
        1 <= new_r < r,
        q == r / new_r,
        gcd(r as nat, new_r as nat) == gcd(p as nat, v as nat),
        cong(t * v, r, p),
        cong(new_t * v, new_r, p),
        t * new_t <= 0,
        r * abs(new_t) + new_r * abs(t) == p,
        abs(t) <= p,
    ensures
        1 <= q,
        q * abs(new_t) <= p,
        abs(t - q * new_t) == abs(t) + q * abs(new_t),
        0 <= r % new_r < new_r,
        gcd(new_r as nat, (r % new_r) as nat) == gcd(p as nat, v as nat),
        cong((t - q * new_t) * v, r % new_r, p),
        new_t * (t - q * new_t) <= 0,
        new_r * abs(t - q * new_t) + (r % new_r) * abs(new_t) == p,
        abs(new_t) <= p,
{
    lemma_fundamental_div_mod(r, new_r);
    lemma_mod_bound(r, new_r);
    let rem = r % new_r;
    // the quotient is at least one because the remainder keeps shrinking
    assert(1 <= q) by (nonlinear_arith)
        requires
            r == q * new_r + rem,
            0 <= rem < new_r,
            new_r < r,
            1 <= new_r,
    ;
    // the coefficient is nonzero while the remainder is: otherwise the
    // congruence new_t * v == new_r (mod p) would force new_r == 0
    assert(new_t != 0) by {
        if new_t == 0 {
            assert(new_t * v == 0) by (nonlinear_arith)
                requires
                    new_t == 0,
            ;
            assert((0 - new_r) % p == 0);
            vstd::arithmetic::div_mod::lemma_mod_add_multiples_vanish(-new_r, p);
            lemma_small_mod((p - new_r) as nat, p as nat);
            assert((0 - new_r) % p == p - new_r);
        }
    }
    // |new_t| <= p and q * |new_t| <= p, from r * |new_t| <= p
    assert(abs(new_t) <= p && q * abs(new_t) <= p) by (nonlinear_arith)
        requires
            1 <= new_r,
            1 <= r,
            r == q * new_r + rem,
            0 <= rem,
            r * abs(new_t) + new_r * abs(t) == p,
            0 <= abs(new_t),
            0 <= abs(t),
            1 <= q,
    ;
    // opposite signs make the magnitudes add
    assert(abs(t - q * new_t) == abs(t) + q * abs(new_t)) by (nonlinear_arith)
        requires
            t * new_t <= 0,
            new_t != 0,
            1 <= q,
            abs(t) == if t < 0 { -t } else { t },
            abs(new_t) == if new_t < 0 { -new_t } else { new_t },
            abs(t - q * new_t) == if t - q * new_t < 0 { -(t - q * new_t) } else { t - q * new_t },
    ;
    // the next pair of coefficients again alternates in sign
    assert(new_t * (t - q * new_t) <= 0) by (nonlinear_arith)
        requires
            t * new_t <= 0,
            1 <= q,
    ;
    // the size bound carries over to the next state
    assert(new_r * abs(t - q * new_t) + rem * abs(new_t) == p) by (nonlinear_arith)
        requires
            abs(t - q * new_t) == abs(t) + q * abs(new_t),
            r == q * new_r + rem,
            r * abs(new_t) + new_r * abs(t) == p,
    ;
    // gcd is untouched by one remainder step
    assert(gcd(r as nat, new_r as nat) == gcd(new_r as nat, (r % new_r) as nat)) by {
        assert((r as nat) % (new_r as nat) == (r % new_r) as nat);
    }
    // the Bezout congruence for the next remainder
    assert(cong((t - q * new_t) * v, rem, p)) by {
        crate::arith::lemma_cong_refl(q, p);
        lemma_cong_mul(q, q, new_t * v, new_r, p);
        crate::arith::lemma_cong_sub(t * v, r, q * (new_t * v), q * new_r, p);
        assert((t - q * new_t) * v == t * v - q * (new_t * v)) by (nonlinear_arith);
        assert(r - q * new_r == rem);
    }
}

/// One step of square-and-multiply preserves the running congruence:
/// multiplying the accumulator in on an odd exponent and squaring the base
/// keeps `acc * base^exp` in the class of the final power.
proof fn lemma_pow_step(
    pre_result: Felt,
    pre_base: Felt,
    pre_exp: nat,
    result: Felt,
    base: Felt,
    p: int,
)
    requires
        pre_result.wf(),
        pre_base.wf(),
        pre_result.modulus == pre_base.modulus,
        p == pre_base.modulus as int,
        pre_exp > 0,
        result == if pre_exp % 2 == 1 {
            pre_result.spec_mul(pre_base)
        } else {
            pre_result
        },
        base == pre_base.spec_mul(pre_base),
    ensures
        cong(
            result.value * pow(base.value as int, (pre_exp / 2) as nat),
            pre_result.value * pow(pre_base.value as int, pre_exp),
            p,
        ),
{
    reveal(pow);
    let b = pre_base.value as int;
    let e = pre_exp;
    let h = (e / 2) as nat;
    // base.value == b * b (mod p), so base.value^h == (b*b)^h == b^(2h) (mod p)
    lemma_cong_mod(b * b, p);
    lemma_cong_sym(b * b, (b * b) % p, p);
    lemma_cong_pow(base.value as int, b * b, h, p);
    vstd::arithmetic::power::lemma_pow_multiplies(b, 2, h);
    assert(pow(b, 2) == b * b) by {
        reveal_with_fuel(pow, 3);
        assert(pow(b, 2) == b * (b * pow(b, 0)));
        assert(b * (b * 1) == b * b) by (nonlinear_arith);
    }
    assert(cong(pow(base.value as int, h), pow(b, 2 * h), p));
    if e % 2 == 1 {
        // e == 2h + 1: acc' * base'^h == (acc*b) * b^(2h) == acc * b^e (mod p)
        assert(e == 2 * h + 1);
        lemma_cong_mod(pre_result.value * b, p);
        lemma_cong_sym(pre_result.value * b, (pre_result.value * b) % p, p);
        lemma_cong_mul(
            result.value as int,
            pre_result.value * b,
            pow(base.value as int, h),
            pow(b, 2 * h),
            p,
        );
        assert(pow(b, 2 * h + 1) == b * pow(b, 2 * h));
        assert((pre_result.value * b) * pow(b, 2 * h) == pre_result.value * (b * pow(b, 2 * h)))
            by (nonlinear_arith);
    } else {
        // e == 2h: acc * base'^h == acc * b^(2h) == acc * b^e (mod p)
        assert(e == 2 * h);
        crate::arith::lemma_cong_refl(result.value as int, p);
        lemma_cong_mul(
            result.value as int,
            result.value as int,
            pow(base.value as int, h),
            pow(b, 2 * h),
            p,
        );
    }
}

/// Multiplying an element by any inverse of it (as [`Felt::inverse`]
/// returns one) always yields one.
pub proof fn lemma_mul_inverse_is_one(a: Felt, i: Felt)
    requires
        a.wf(),
        i.wf(),
        i.modulus == a.modulus,
        (i.value * a.value) % (a.modulus as int) == 1,
    ensures
        a.spec_mul(i) == (Felt { value: 1, modulus: a.modulus }),
{
    assert(a.value * i.value == i.value * a.value) by (nonlinear_arith);
}

/// Raising to the zeroth power always yields one.
pub proof fn lemma_pow_zero_is_one(a: Felt)
    requires
        a.wf(),
    ensures
        a.spec_pow(0) == (Felt { value: 1, modulus: a.modulus }),
{
    reveal(pow);
    lemma_small_mod(1, a.modulus as nat);
}

/// Raising to the first power gives the element back.
pub proof fn lemma_pow_one_is_self(a: Felt)
    requires
        a.wf(),
    ensures
        a.spec_pow(1) == a,
{
    reveal_with_fuel(pow, 2);
    assert(pow(a.value as int, 1) == a.value * 1);
    assert(a.value * 1 == a.value as int) by (nonlinear_arith);
    lemma_small_mod(a.value as nat, a.modulus as nat);
}

/// Negation is an involution: negating a well-formed element twice gives
/// the element back.
pub proof fn lemma_neg_involution(f: Felt)
    requires
        f.wf(),
    ensures
        f.spec_neg().spec_neg() == f,
{
    let m = f.modulus as int;
    if f.value == 0 {
        vstd::arithmetic::div_mod::lemma_mod_self_0(m);
        lemma_small_mod(0, f.modulus as nat);
    } else {
        lemma_small_mod((f.modulus - f.value) as nat, f.modulus as nat);
        lemma_small_mod(f.value as nat, f.modulus as nat);
    }
}

/// Adding an element to its additive inverse always yields zero.
pub proof fn lemma_add_neg_is_zero(a: Felt)
    requires
        a.wf(),
    ensures
        a.spec_add(a.spec_neg()) == (Felt { value: 0, modulus: a.modulus }),
{
    let p = a.modulus as int;
    if a.value == 0 {
        lemma_small_mod(0, a.modulus as nat);
    } else {
        assert((a.modulus - a.value) % p == a.modulus - a.value) by {
            lemma_small_mod((a.modulus - a.value) as nat, a.modulus as nat);
        }
        assert((a.value + (a.modulus - a.value)) % p == 0) by {
            vstd::arithmetic::div_mod::lemma_mod_self_0(p);
        }
    }
}

} // verus!
