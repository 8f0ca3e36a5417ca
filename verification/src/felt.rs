//! Field elements: residues modulo a fixed modulus, with ring operations and,
//! where the divisor is coprime to the modulus, multiplicative inverses.

pub mod felt;
pub mod felt_errors;
