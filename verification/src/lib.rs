//! Sampling from convex polytopes given as `A x <= b`, with finance tools
//! built on the samples.
//!
//! This crate holds the integer-valued part of the library, verified with
//! Verus: error reporting, the constraint tables of the standard shapes, the
//! schedule of the ball walk, the order keys that stand for floating-point
//! scores, and the rank and histogram logic behind the portfolio scores and
//! the copula.

pub mod error;
pub mod finance;
pub mod geometry;
pub mod ordering;
pub mod samplers;
