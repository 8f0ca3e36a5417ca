//! Elliptic-curve points over a prime field, their group law, and two
//! discrete-logarithm solvers built purely on that law.

pub mod ec_errors;
pub mod ec_point;
pub mod group_law;
