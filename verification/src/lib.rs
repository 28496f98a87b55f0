//! A low-memory median solver.
//!
//! The median of a dataset is found without sorting it and without any
//! per-element bookkeeping: an iterative search repeatedly counts, in a
//! single pass, how many elements lie at or below a candidate value, and
//! refines the candidate with an adaptive step until the counts show that
//! the candidate brackets the middle order statistics.
//!
//! Elements are handled as plain `u64` order keys (see [`keys`]), whose
//! integer order mirrors the order of the non-NaN doubles they encode.
//! The solver returns a [`solver::MedianOutcome`] naming the median either
//! as one element or as the midpoint of two elements, so that the one
//! remaining floating-point average is left to the caller.

pub mod controller;
pub mod counting;
pub mod keys;
pub mod solver;
