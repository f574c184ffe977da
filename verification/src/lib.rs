//! Merkle-root computation and block validation.
//!
//! A block binds an ordered sequence of transaction digests to a single
//! root digest by repeated pairwise combination. This crate computes that
//! root, validates a stored root against the digests it claims to
//! summarize, and derives leaf digests from transaction data.

pub mod block;
pub mod line;
pub mod tx;
