use vstd::prelude::*;

verus! {

/// Failures surfaced by curve-point construction.
#[derive(Debug, Clone, Copy, PartialEq, Eq, Structural)]
pub enum ECError {
    /// The pair `(x, y)` (first two fields) does not satisfy
    /// `y^2 = x^3 + a*x + b` for the curve parameters `(a, b)`
    /// (last two fields).
    PointNotOnCurve(u64, u64, u64, u64),
}

} // verus!
