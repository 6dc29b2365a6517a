//! Seeded SplitMix64 challenges that ignore what is observed.
use vstd::prelude::*;
use crate::challenger::Challenger;
use crate::field::F128;

verus! {

/// SplitMix64's state after one step.
pub open spec fn splitmix64_next(state: u64) -> u64 {
    state.wrapping_add(0x9E3779B97F4A7C15u64)
}

/// The word that SplitMix64 puts out for the state it has stepped to.
pub open spec fn splitmix64_word(state: u64) -> u64 {
    let a = (state ^ (state >> 30)).wrapping_mul(0xBF58476D1CE4E5B9u64);
    let b = (a ^ (a >> 27)).wrapping_mul(0x94D049BB133111EBu64);
    b ^ (b >> 31)
}

#[inline]
fn splitmix64(state: &mut u64) -> (word: u64)
    ensures
        *final(state) == splitmix64_next(*old(state)),
        word == splitmix64_word(splitmix64_next(*old(state))),
{
    *state = state.wrapping_add(0x9E3779B97F4A7C15);
    let z: u64 = *state;
    let a: u64 = (z ^ (z >> 30)).wrapping_mul(0xBF58476D1CE4E5B9);
    let b: u64 = (a ^ (a >> 27)).wrapping_mul(0x94D049BB133111EB);
    b ^ (b >> 31)
}

/// Seeded pseudo-random challenger, independent of what is observed.
#[derive(Clone, Debug)]
pub struct RandomChallenger {
    state: u64,
}

impl RandomChallenger {
    pub fn new(seed: u64) -> (r: RandomChallenger)
        ensures
            r.state() == seed,
    {
        RandomChallenger { state: seed }
    }

    /// The state after `n` samples.
    pub open spec fn stepped(s: u64, n: nat) -> u64
        decreases n,
    {
        if n == 0 {
            s
        } else {
            splitmix64_next(splitmix64_next(RandomChallenger::stepped(s, (n - 1) as nat)))
        }
    }
}

impl Challenger for RandomChallenger {
    type State = u64;

    closed spec fn state(&self) -> u64 {
        self.state
    }

    open spec fn after_label(s: u64, label: Seq<u8>) -> u64 {
        s
    }

    open spec fn after_f128(s: u64, value: F128) -> u64 {
        s
    }

    open spec fn after_f128_slice(s: u64, values: Seq<F128>) -> u64 {
        s
    }

    open spec fn after_bytes(s: u64, bytes: Seq<u8>) -> u64 {
        s
    }

    open spec fn challenge(s: u64) -> F128 {
        let s1 = splitmix64_next(s);
        F128 { lo: splitmix64_word(s1), hi: splitmix64_word(splitmix64_next(s1)) }
    }

    open spec fn after_sample(s: u64) -> u64 {
        splitmix64_next(splitmix64_next(s))
    }

    open spec fn challenge_vec(s: u64, n: nat) -> Seq<F128> {
        Seq::new(n, |i: int| Self::challenge(RandomChallenger::stepped(s, i as nat)))
    }

    open spec fn after_sample_vec(s: u64, n: nat) -> u64 {
        RandomChallenger::stepped(s, n)
    }

    proof fn lemma_challenge_count(s: u64, n: nat) {
    }

    open spec fn pow_accepts(s: u64, nonce: u64, bits: u32) -> bool {
        true
    }

    open spec fn after_pow(s: u64, nonce: u64) -> u64 {
        s
    }

    fn observe_label(&mut self, label: &[u8]) {
    }

    #[inline]
    fn observe_f128(&mut self, value: F128) {
    }

    fn observe_f128_slice(&mut self, values: &[F128]) {
    }

    fn observe_bytes(&mut self, bytes: &[u8]) {
    }

    fn sample_f128(&mut self) -> (r: F128) {
        let lo: u64 = splitmix64(&mut self.state);
        let hi: u64 = splitmix64(&mut self.state);
        F128 { lo, hi }
    }

    fn sample_f128_vec(&mut self, n: usize) -> (r: Vec<F128>) {
        let ghost s0 = self.state;
        let mut r: Vec<F128> = Vec::with_capacity(n);
        let mut i: usize = 0;
        while i < n
            invariant
                i <= n,
                r@.len() == i,
                self.state() == RandomChallenger::stepped(s0, i as nat),
                forall|j: int|
                    0 <= j < i ==> #[trigger] r@[j] == Self::challenge(
                        RandomChallenger::stepped(s0, j as nat),
                    ),
            decreases n - i,
        {
            r.push(self.sample_f128());
            i = i + 1;
        }
        assert(r@ =~= Self::challenge_vec(s0, n as nat));
        r
    }

    fn grind_pow(&mut self, bits: u32) -> (nonce: u64) {
        0
    }

    fn verify_pow(&mut self, nonce: u64, bits: u32) -> (ok: bool) {
        true
    }
}

/// A batch of challenges is what as many single challenges are, and leaves the
/// challenger in the same state.
pub proof fn lemma_sample_vec_is_samples(s: u64, n: nat)
    ensures
        RandomChallenger::challenge_vec(s, n + 1) == RandomChallenger::challenge_vec(s, n).push(
            RandomChallenger::challenge(RandomChallenger::after_sample_vec(s, n)),
        ),
        RandomChallenger::after_sample_vec(s, n + 1) == RandomChallenger::after_sample(
            RandomChallenger::after_sample_vec(s, n),
        ),
        RandomChallenger::challenge_vec(s, 0) == Seq::<F128>::empty(),
        RandomChallenger::after_sample_vec(s, 0) == s,
{
    assert(RandomChallenger::challenge_vec(s, n + 1) =~= RandomChallenger::challenge_vec(
        s,
        n,
    ).push(RandomChallenger::challenge(RandomChallenger::after_sample_vec(s, n))));
    assert(RandomChallenger::challenge_vec(s, 0) =~= Seq::<F128>::empty());
}

} // verus!
