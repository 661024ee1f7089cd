//! Equality-tensor construction over prime fields, with a differential harness.
//!
//! The crate has three layers:
//! - [`field`]: exact arithmetic on residues modulo a fixed prime, held in
//!   canonical range, together with the proved field laws;
//! - [`tensor`]: a recursive divide-and-conquer builder for the evaluation
//!   table of the scaled multilinear equality-indicator polynomial, and an
//!   independent iterative reference builder with the same contract;
//! - [`harness`]: deterministic pseudorandom trial generation that drives both
//!   builders on identical inputs and counts element-wise mismatches.

pub mod field;
pub mod harness;
pub mod tensor;
