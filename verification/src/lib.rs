//! Prime-field modular arithmetic and elliptic-curve point-group arithmetic,
//! with machine-checked contracts for every operation.
//!
//! The crate is organised bottom-up: [`felt`] provides residues modulo a fixed
//! modulus with field operations, [`ec`] builds short-Weierstrass curve points
//! and their group law on top of it, together with two discrete-logarithm
//! solvers that operate purely through the group law.

pub mod arith;
pub mod decimal;
pub mod ec;
pub mod felt;
