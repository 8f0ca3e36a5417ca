use vstd::prelude::*;

verus! {

/// A field operation that cannot produce a result reports one of these.
#[derive(Debug, Clone, Copy, PartialEq, Eq, Structural)]
pub enum FeltError {
    /// The value (first field) has no multiplicative inverse modulo the
    /// modulus (second field), because their greatest common divisor is not 1.
    NotInvertible(u64, u64),
    /// The divisor of a field division has value zero.
    DivisionByZero,
}

} // verus!
