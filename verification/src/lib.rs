//! A small numerical computing core: dense linear-algebra kernels and a
//! generalized linear model fitting engine built on them.
//!
//! Floating-point values are carried throughout as their IEEE-754 bit
//! patterns (`u64`, as produced by `f64::to_bits`).  The verifier has no
//! model of floating-point arithmetic, so each primitive operation is an
//! uninterpreted function of the operand bit patterns; every kernel above
//! that layer then has an exact, deterministic contract.

use vstd::prelude::*;

pub mod scalar;
pub mod vecops;
pub mod matrix;
pub mod cholesky;
pub mod family;
pub mod glm;
pub mod stats;
pub mod timeseries;
pub mod chi_squared;

verus! {

/// What can go wrong in the numerical core.  Shape problems and a missing
/// intercept column are rejected before any arithmetic; a working matrix
/// that fails the solver's entry checks is reported as degenerate instead
/// of being carried on as quiet NaNs.
#[derive(Clone, Copy, Debug, PartialEq, Eq, Structural)]
pub enum MathError {
    /// Two operands disagree about a dimension they must share.
    ShapeMismatch,
    /// A design matrix whose first column is not identically one.
    InvalidDesign,
    /// A working matrix the linear solver refuses as visibly asymmetric
    /// beyond rounding tolerance.
    NumericDegeneracy,
}

} // verus!
