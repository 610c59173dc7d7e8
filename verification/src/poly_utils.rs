//! Multilinear polynomials and the points they are evaluated at.

pub mod coeffs;
pub mod dense;
pub mod evals;
pub mod hypercube;
pub mod multilinear;
