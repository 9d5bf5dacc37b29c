//! Sparse k-mer fingerprints for DNA sequences.
//!
//! A sequence over the alphabet `{A, C, T, G}` is summarized by counting all
//! of its overlapping substrings of a fixed length `k`.  Each substring is
//! encoded as a base-4 integer key in `[0, 4^k)`, and the counts form a
//! sparse vector of dimension `4^k`.  Normalizing that vector by its
//! Euclidean norm yields a unit-length fingerprint; the dot product of two
//! fingerprints is their cosine similarity.
//!
//! Everything that can be stated over integers is verified here: encoding
//! (with its bijectivity), window counting, the squared norm, and the dot
//! product of the raw count vectors.  The final division by the square root
//! of the squared norm is floating point and is left to callers, who can
//! compute `similarity = dot / (sqrt(norm_sq_a) * sqrt(norm_sq_b))` from the
//! exact integer parts exposed by this crate.

pub mod encoding;
pub mod error;
pub mod fingerprint;
