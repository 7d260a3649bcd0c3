//! An erasure-coding engine over GF(2^8).
//!
//! A block of data split into `k` equal-size data shards is extended with `m`
//! parity shards so that any `k` of the `k + m` shards suffice to rebuild the
//! rest.  Two schemes are offered: a general Reed-Solomon scheme built on a
//! generator matrix whose first `k` rows are the identity, and a single-parity
//! XOR scheme for the one-redundancy case.

use vstd::prelude::*;

pub mod codec;
pub mod gf;
pub mod linalg;
pub mod matrix;
pub mod xor;

verus! {

/// Failures reported by the engine.  Every operation reports these
/// synchronously as typed results; none is retried internally.
#[derive(Clone, Copy, Debug, PartialEq, Eq, Structural)]
pub enum CodecError {
    /// Invalid `(k, m)` at session construction.
    Configuration,
    /// Mismatched shard count or shard length.
    Shape,
    /// More shards are missing than the redundancy permits.
    InsufficientShards,
    /// A field operation on zero where undefined, or a singular submatrix.
    Arithmetic,
}

} // verus!
