//! A verified core for finite-element assembly and error estimation.
//!
//! The crate assembles global sparse stiffness matrices and load vectors from
//! per-element contributions, and integrates the squared pointwise error of a
//! discrete solution against reference values, over arbitrary elements and
//! quadrature rules.
//!
//! All arithmetic is exact: scalars are fixed-point values carried in `i128`,
//! with range preconditions that rule out overflow. Every function states in
//! its contract the exact value it computes, as a mathematical sum over the
//! input tables.

pub mod assembly;
pub mod error;
pub mod local;
pub mod pattern;
pub mod space;
pub mod sums;

use vstd::prelude::*;

verus! {

/// Largest magnitude admitted for an input scalar (weights, Jacobian
/// determinants, basis values, solution coefficients, reference values).
pub open spec fn scalar_ok(v: int) -> bool {
    -4096 <= v <= 4096
}

} // verus!
