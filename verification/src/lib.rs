//! Weighted counting of the terms that repeated differentiation of a
//! generating function produces.
//!
//! A derivation starts from one term, made from the numbers of vertices of
//! degree 2, 4 and 6 and from an exponent. Each step differentiates a term in
//! every way that is open to it and so replaces it by zero, one or many
//! children. When every term is terminal, the caller reads off the total
//! weight and the number of terms, if it likes after terms of the same
//! structure have been merged.
//!
//! - [`model`] states what a term is and what one step, canonical form and
//!   structural key are, over integers and sequences.
//! - [`term`] holds the terms that run on the machine and the expansion
//!   engine, proved to compute what [`model`] states.
//! - [`driver`] expands whole frontiers, level after level, in parallel.
//! - [`merge`] gathers terms of the same structure.
//! - [`laws`] and [`grouping`] prove what holds of every derivation and of
//!   every reduction.
//! - [`expansion`] and [`sums`] hold the lemmas that the others rest on.
//! - [`storage`] wraps the `nalgebra` containers that hold the indices.

pub mod driver;
pub mod expansion;
pub mod grouping;
pub mod laws;
pub mod merge;
pub mod model;
pub mod storage;
pub mod sums;
pub mod term;
