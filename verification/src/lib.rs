//! Spectral graph classification support library.
//!
//! The crate turns a graph's connectivity into a fixed-length numeric
//! feature vector (a truncated spectrum of the normalized graph Laplacian)
//! and evaluates a pluggable classifier over such vectors with k-fold
//! cross-validation.  All combinatorial and exact-arithmetic logic is
//! verified; the floating-point eigensolver and the decision-tree trainer
//! are consumed as abstract capabilities by the surrounding application.

pub mod adjacency;
pub mod assemble;
pub mod crossval;
pub mod errors;
pub mod laplacian;
pub mod parse;
pub mod spectral;
