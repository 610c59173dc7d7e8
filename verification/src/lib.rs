//! Multilinear polynomials in coefficient form, over any field.
//!
//! - [`field`] states which operations a field offers and the laws they obey.
//! - [`algebra`] says what a multilinear or a univariate polynomial is worth at a point.
//! - [`arithmetic`] deals with powers of two.
//! - [`poly_utils`] holds the polynomials and the points.
//! - [`ntt`] turns coefficients into the values on the binary hypercube.
//! - [`laws`] states what holds between the operations.
//! - [`parallel`] spreads work over threads, and says what is believed of the thread pool.
//! - [`crypto`] holds a 64-bit prime field and its quadratic extension.

pub mod algebra;
pub mod arithmetic;
pub mod crypto;
pub mod field;
pub mod laws;
pub mod ntt;
pub mod parallel;
pub mod poly_utils;
