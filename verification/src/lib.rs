//! Relative-position encoding for disentangled attention.
//!
//! The core of the crate is the log-bucket relative position encoder: for a
//! pair of sequence lengths it produces a matrix of bucketed signed distances
//! that biases attention scores.  Near distances are kept exact, far distances
//! are compressed logarithmically into a bounded bucket range.  All arithmetic
//! here is exact integer arithmetic: the logarithmic bucket index is
//! characterised by power inequalities instead of floating point.

pub mod attention;
pub mod bignum;
pub mod embeddings;
pub mod position;
pub mod tensor;
