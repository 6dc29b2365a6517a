//! Verifier-randomness abstraction.
//!
//! A [`Challenger`] is the source of verifier challenges in the protocol.
//! The prover writes its messages into the challenger (`observe_*`) and reads
//! challenges back out (`sample_*`). The verifier mirrors this exactly — as
//! it walks through the proof, it observes each prover message and samples
//! the same challenges, so both sides derive the same randomness in lockstep.
//!
//! Two implementations:
//! - [`RandomChallenger`] — seeded pseudo-random, ignores observed messages.
//!   For measurements and mutation tests; **not sound for real proofs**.
//! - [`FsChallenger`] — SHA-256-based Fiat-Shamir. Absorbs observations into a
//!   running hash state; samples by squeezing bytes via a counter
//!   (`SHA256(state || ctr)` for ctr = 0, 1, …), then re-absorbing the squeezed
//!   bytes so the next challenge binds to the previous one.
use vstd::prelude::*;
use crate::field::F128;

pub mod fs;
pub mod fs_count;
pub mod laws;
pub mod random;
pub mod script;

pub use fs::FsChallenger;
pub use random::RandomChallenger;

verus! {

/// A source of challenges. The specification functions describe it as a state
/// machine: what each operation makes of the abstract state, and which
/// challenges a state yields.
pub trait Challenger: Send {
    /// The abstract state that challenges are a function of.
    type State;

    spec fn state(&self) -> Self::State;

    spec fn after_label(s: Self::State, label: Seq<u8>) -> Self::State;

    spec fn after_f128(s: Self::State, value: F128) -> Self::State;

    spec fn after_f128_slice(s: Self::State, values: Seq<F128>) -> Self::State;

    spec fn after_bytes(s: Self::State, bytes: Seq<u8>) -> Self::State;

    /// The challenge that the next `sample_f128` yields.
    spec fn challenge(s: Self::State) -> F128;

    spec fn after_sample(s: Self::State) -> Self::State;

    /// The challenges that the next `sample_f128_vec` of length `n` yields.
    spec fn challenge_vec(s: Self::State, n: nat) -> Seq<F128>;

    spec fn after_sample_vec(s: Self::State, n: nat) -> Self::State;

    /// There are as many challenges as are asked for.
    proof fn lemma_challenge_count(s: Self::State, n: nat)
        ensures
            Self::challenge_vec(s, n).len() == n,
    ;

    /// Whether `nonce` is a proof of work of `bits` bits for the state.
    spec fn pow_accepts(s: Self::State, nonce: u64, bits: u32) -> bool;

    spec fn after_pow(s: Self::State, nonce: u64) -> Self::State;

    /// Absorb a domain-separation label (e.g. `b"flock-zerocheck-v0"`). Each
    /// protocol entry should call this once on entry so a transcript from
    /// one protocol cannot be replayed as another.
    fn observe_label(&mut self, label: &[u8])
        ensures
            final(self).state() == Self::after_label(old(self).state(), label@),
    ;

    /// Absorb a single F128 prover message.
    fn observe_f128(&mut self, value: F128)
        ensures
            final(self).state() == Self::after_f128(old(self).state(), value),
    ;

    /// Absorb a slice of F128 prover messages (e.g. the round-1 vector).
    fn observe_f128_slice(&mut self, values: &[F128])
        ensures
            final(self).state() == Self::after_f128_slice(old(self).state(), values@),
    ;

    /// Absorb arbitrary bytes (e.g. a Merkle root or a statement digest).
    fn observe_bytes(&mut self, bytes: &[u8])
        ensures
            final(self).state() == Self::after_bytes(old(self).state(), bytes@),
    ;

    /// Produce one F128 challenge.
    fn sample_f128(&mut self) -> (r: F128)
        ensures
            r == Self::challenge(old(self).state()),
            final(self).state() == Self::after_sample(old(self).state()),
    ;

    /// Produce `n` F128 challenges, in order.
    fn sample_f128_vec(&mut self, n: usize) -> (r: Vec<F128>)
        requires
            n * 16 <= usize::MAX,
        ensures
            r@ == Self::challenge_vec(old(self).state(), n as nat),
            r@.len() == n,
            final(self).state() == Self::after_sample_vec(old(self).state(), n as nat),
    ;

    /// Prover-side PoW grinding: search for the smallest `u64` nonce that is a
    /// proof of work of `bits` bits for the current state, then absorb it so
    /// subsequent challenges bind to it. Should no nonce at all be accepted,
    /// the last one tried is absorbed and returned.
    fn grind_pow(&mut self, bits: u32) -> (nonce: u64)
        ensures
            Self::pow_accepts(old(self).state(), nonce, bits) || (forall|n: u64|
                !(#[trigger] Self::pow_accepts(old(self).state(), n, bits))),
            forall|n: u64| n < nonce ==> !(#[trigger] Self::pow_accepts(old(self).state(), n, bits)),
            final(self).state() == Self::after_pow(old(self).state(), nonce),
    ;

    /// Verifier-side mirror of [`Self::grind_pow`]: check that `nonce` is a
    /// proof of work of `bits` bits for the current state, then absorb it so
    /// the running state stays in lockstep with the prover.
    fn verify_pow(&mut self, nonce: u64, bits: u32) -> (ok: bool)
        ensures
            ok == Self::pow_accepts(old(self).state(), nonce, bits),
            final(self).state() == Self::after_pow(old(self).state(), nonce),
    ;
}

} // verus!
