//! Counters of the hash work that a Fiat–Shamir challenger does.
use vstd::prelude::*;

verus! {

/// How many squeezes and how many proof-of-work hashes were made.
#[derive(Clone, Copy, Debug, PartialEq, Eq, Structural)]
pub struct FsCounts {
    /// One per `sample_f128` / `sample_f128_vec` / proof-of-work digest.
    pub squeezes: u64,
    /// Number of SHA-256 proof-of-work evaluations.
    pub pow_sha256: u64,
}

impl FsCounts {
    /// Counters at zero.
    pub fn new() -> (r: FsCounts)
        ensures
            r.squeezes == 0,
            r.pow_sha256 == 0,
    {
        FsCounts { squeezes: 0, pow_sha256: 0 }
    }

    /// The counters after one more squeeze.
    pub(crate) fn with_squeeze(self) -> (r: FsCounts)
        ensures
            r.squeezes == self.squeezes.wrapping_add(1),
            r.pow_sha256 == self.pow_sha256,
    {
        FsCounts { squeezes: self.squeezes.wrapping_add(1), pow_sha256: self.pow_sha256 }
    }

    /// The counters after one more proof-of-work hash.
    pub(crate) fn with_pow(self) -> (r: FsCounts)
        ensures
            r.squeezes == self.squeezes,
            r.pow_sha256 == self.pow_sha256.wrapping_add(1),
    {
        FsCounts { squeezes: self.squeezes, pow_sha256: self.pow_sha256.wrapping_add(1) }
    }
}

/// Set both counters back to zero.
pub fn reset(counts: &mut FsCounts)
    ensures
        final(counts).squeezes == 0,
        final(counts).pow_sha256 == 0,
{
    counts.squeezes = 0;
    counts.pow_sha256 = 0;
}

/// `(squeezes, pow_sha256)`.
pub fn snapshot(counts: &FsCounts) -> (r: (u64, u64))
    ensures
        r == (counts.squeezes, counts.pow_sha256),
{
    (counts.squeezes, counts.pow_sha256)
}

} // verus!
