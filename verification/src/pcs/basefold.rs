//! BaseFold prover/verifier with multi-arity FRI.
//!
//! BaseFold runs `L = log_msg_len` sumcheck rounds in lockstep with codeword
//! folds. The first `log_batch_size` rounds are **row-batch** rounds (combine
//! 2 adjacent lanes within each codeword position). The remaining
//! `log_dim = L − log_batch_size` rounds are **FRI** rounds that fold pairs
//! of codeword positions.
//!
//! ## Two-tree commit + multi-arity FRI
//!
//! Two separate Merkle commitments bind the codeword in stages:
//!
//! - **T₁ (initial)** — built when the witness is committed. Leaves contain
//!   ONE codeword position's row-batch lanes (`2^log_batch_size`
//!   F_{2^128} per leaf).
//! - **T₂ (post-row-batch)** — built **inside** [`prove`] right after the
//!   `log_batch_size` row-batch sumcheck rounds. Multi-arity leaves of
//!   `2^arity_0` F_{2^128} group consecutive post-row-batch positions so
//!   one Merkle opening suffices for the first FRI epoch's `arity_0` folds.
//!
//! Subsequent FRI epochs get their own commits via the multi-arity scheme:
//! `arities = [6, 6, 5]` for `log_dim = 17` → 1 (T₂) + 2 (FRI epoch boundaries)
//! commits inside basefold, plus T₁ from outside.
//!
//! ## Per-query work
//!
//! For each FRI query position:
//! 1. Open the **T₁ leaf** and row-batch-fold it to one value.
//! 2. Open the **T₂ leaf** and **cross-check** its value at the queried
//!    offset; FRI-fold the leaf via `arity_0` challenges.
//! 3. For each subsequent FRI commit: open the **epoch leaf**, check the
//!    prior epoch's folded value against it, and fold it.
//! 4. After the last epoch, the expected value must match `final_codeword`
//!    at the corresponding (constant) position.
use vstd::arithmetic::power2::pow2;
use vstd::prelude::*;
use crate::challenger::fs::element_at;
use crate::challenger::Challenger;
use crate::field::F128;
use crate::hash::Hash32;
use crate::merkle::{
    hash_views, leaf_hashes, merkle_root, multi_proof_from, multi_proof_of, sorted_positions,
};
use crate::ntt::AdditiveNttF128;
use crate::pcs::commit::{epoch_arity, epoch_count};
use crate::pcs::fold::{fold_low, fold_low_all, fri_fold_all, low_message};

pub mod binding;
pub mod laws;
pub mod prover;
pub mod check;

pub use prover::{prove, prove_with_precomputed_round0_prime};
pub use check::verify;

verus! {

/// Default FRI query count at **rate 1/2** (= `log_inv_rate = 1`). 243
/// queries give 100 bits of provable soundness in the **unique-decoding
/// regime**.
pub const DEFAULT_FRI_QUERIES: usize = 243;

/// FRI query count required for 100 bits of soundness at the given
/// `log_inv_rate`, in the unique-decoding regime. Only the rates 1/2 and 1/4
/// have a soundness-derived entry.
pub fn default_fri_queries(log_inv_rate: usize) -> (n: usize)
    requires
        log_inv_rate == 1 || log_inv_rate == 2,
    ensures
        n == query_count(log_inv_rate as nat),
{
    if log_inv_rate == 1 {
        DEFAULT_FRI_QUERIES
    } else {
        148
    }
}

/// The query count of a rate.
pub open spec fn query_count(log_inv_rate: nat) -> nat {
    if log_inv_rate == 1 {
        243
    } else {
        148
    }
}

/// Per-round sumcheck message: `u_0 = u(0)`, `u_2 = u(∞)`. Middle coeff is
/// derived by the verifier from the running claim: `u_1 = T_r + u_2`.
#[derive(Clone, Copy, Debug, PartialEq, Eq)]
pub struct RoundMessage {
    pub u_0: F128,
    pub u_2: F128,
}

/// Per-epoch FRI commitment: root of the folded codeword's Merkle tree.
#[derive(Clone, Copy, Debug, PartialEq, Eq)]
pub struct RoundCommitment {
    pub root: Hash32,
}

/// A single FRI query opening (multi-arity layout). Leaf payloads only; the
/// Merkle paths binding these leaves to their roots are shared across all
/// queries via [`BaseFoldProof`]'s multi-proof fields.
#[derive(Clone, Debug, PartialEq, Eq)]
pub struct QueryOpening {
    /// Random initial codeword position in `[0, 2^k_code)`.
    pub position: usize,
    /// Initial Merkle leaf: the row-batch lanes for ONE codeword position.
    pub initial_leaf: Vec<F128>,
    /// Multi-arity post-row-batch leaf: `2^arity_0` F_{2^128} values covering
    /// `2^arity_0` consecutive post-row-batch codeword positions (including
    /// the queried one).
    pub post_row_batch_leaf: Vec<F128>,
    /// One entry per FRI commit. Entry `i` is the coset of `2^arities[i+1]`
    /// values committed at the end of epoch `i`.
    pub epoch_leaves: Vec<Vec<F128>>,
}

#[derive(Clone, Debug, PartialEq, Eq)]
pub struct BaseFoldProof {
    /// Sumcheck round messages, length `L = log_msg_len`.
    pub round_messages: Vec<RoundMessage>,
    /// Commitment to the **post-row-batch** codeword. Inserted into the
    /// transcript right after the row-batch rounds and before the first FRI
    /// round.
    pub post_row_batch_commit: RoundCommitment,
    /// FRI epoch commitments, length `arities.len() − 1` (last epoch
    /// plaintext).
    pub round_commitments: Vec<RoundCommitment>,
    pub final_a: F128,
    pub final_b: F128,
    /// Final codeword (length `2^log_inv_rate`, must be constant).
    pub final_codeword: Vec<F128>,
    pub queries: Vec<QueryOpening>,
    /// Octopus multi-proof for the T1 (initial) tree.
    pub initial_multi_proof: Vec<Hash32>,
    /// Octopus multi-proof for the T2 (post-row-batch) tree. Empty iff
    /// `arities.is_empty()` (i.e. `log_dim == 0`).
    pub post_row_batch_multi_proof: Vec<Hash32>,
    /// One octopus multi-proof per FRI commit, aligned with
    /// `queries[*].epoch_leaves[i]`.
    pub epoch_multi_proofs: Vec<Vec<Hash32>>,
}

#[derive(Clone, Copy, Debug, PartialEq, Eq)]
pub enum VerifyError {
    SumcheckFinalMismatch,
    FinalCodewordNotConstant,
    SumcheckFriMismatch,
    InitialMerkleFailed { query_index: usize },
    RoundMerkleFailed { query_index: usize, epoch: usize },
    FoldMismatch { query_index: usize, epoch: usize },
    InvalidProofShape,
}

// ---------------------------------------------------------------------------
// The run of the protocol
// ---------------------------------------------------------------------------

/// `flock-basefold-v0`.
pub open spec fn basefold_label() -> Seq<u8> {
    seq![
        0x66u8, 0x6c, 0x6f, 0x63, 0x6b, 0x2d, 0x62, 0x61, 0x73, 0x65, 0x66, 0x6f, 0x6c, 0x64, 0x2d,
        0x76, 0x30,
    ]
}

/// The dimensions of the code.
pub struct Code {
    pub log_dim: nat,
    pub log_inv_rate: nat,
    pub log_batch: nat,
}

impl Code {
    /// Log of the number of positions.
    pub open spec fn k_code(self) -> nat {
        self.log_dim + self.log_inv_rate
    }

    /// The number of lanes per position.
    pub open spec fn lanes(self) -> nat {
        pow2(self.log_batch)
    }

    /// Log of the message length; the number of rounds.
    pub open spec fn rounds(self) -> nat {
        self.log_dim + self.log_batch
    }

    /// The number of FRI epochs.
    pub open spec fn epochs(self) -> nat {
        epoch_count(self.log_dim)
    }

    /// The rounds of epoch `e`.
    pub open spec fn arity(self, e: nat) -> nat {
        epoch_arity(self.log_dim, e)
    }

    /// Log of the number of leaves of the tree of epoch `e`.
    pub open spec fn epoch_log(self, e: nat) -> nat {
        (self.k_code() - 6 * e - self.arity(e)) as nat
    }

    /// Whether a codeword is committed after `t` rounds.
    pub open spec fn commits_at(self, t: nat) -> bool {
        &&& t >= 1
        &&& t >= self.log_batch
        &&& (t - self.log_batch) % 6 == 0
        &&& t - self.log_batch < self.log_dim
    }
}

/// The codeword after the row-batch folds and `f` FRI folds.
pub open spec fn folded_codeword(
    ntt: &AdditiveNttF128,
    cw: Seq<F128>,
    c: Code,
    ch: Seq<F128>,
    f: nat,
) -> Seq<F128> {
    fri_fold_all(
        ntt,
        fold_low_all(cw, ch.take(c.log_batch as int)),
        c.k_code(),
        ch.subrange(c.log_batch as int, (c.log_batch + f) as int),
    )
}

/// The leaf hashes of the tree of epoch `e`.
pub open spec fn epoch_leaf_hashes(
    ntt: &AdditiveNttF128,
    cw: Seq<F128>,
    c: Code,
    ch: Seq<F128>,
    e: nat,
) -> Seq<Seq<u8>> {
    leaf_hashes(folded_codeword(ntt, cw, c, ch, 6 * e), pow2(c.epoch_log(e)))
}

/// The root of the tree of epoch `e`.
pub open spec fn epoch_root(
    ntt: &AdditiveNttF128,
    cw: Seq<F128>,
    c: Code,
    ch: Seq<F128>,
    e: nat,
) -> Seq<u8> {
    merkle_root(epoch_leaf_hashes(ntt, cw, c, ch, e), c.epoch_log(e))
}

/// The element that a root is observed as.
pub open spec fn root_element(root: Seq<u8>) -> F128 {
    element_at(root, 0)
}

/// The prover after some rounds.
pub struct FoldRounds<S> {
    pub messages: Seq<(F128, F128)>,
    pub challenges: Seq<F128>,
    pub a: Seq<F128>,
    pub b: Seq<F128>,
    pub state: S,
}

/// The message of the next round. That of the first round may be given.
pub open spec fn next_message(
    a: Seq<F128>,
    b: Seq<F128>,
    t: nat,
    prime: Option<(F128, F128)>,
) -> (F128, F128) {
    if t == 0 && prime is Some {
        prime->Some_0
    } else {
        low_message(a, b)
    }
}

pub open spec fn fold_rounds<Ch: Challenger>(
    s: Ch::State,
    ntt: &AdditiveNttF128,
    cw: Seq<F128>,
    c: Code,
    a: Seq<F128>,
    b: Seq<F128>,
    prime: Option<(F128, F128)>,
    t: nat,
) -> FoldRounds<Ch::State>
    decreases t,
{
    if t == 0 {
        FoldRounds { messages: Seq::empty(), challenges: Seq::empty(), a, b, state: s }
    } else {
        let p = fold_rounds::<Ch>(s, ntt, cw, c, a, b, prime, (t - 1) as nat);
        let (u_0, u_2) = next_message(p.a, p.b, (t - 1) as nat, prime);
        let s1 = Ch::after_f128(Ch::after_f128(p.state, u_0), u_2);
        let r = Ch::challenge(s1);
        let s2 = Ch::after_sample(s1);
        let challenges = p.challenges.push(r);
        FoldRounds {
            messages: p.messages.push((u_0, u_2)),
            challenges,
            a: fold_low(p.a, r),
            b: fold_low(p.b, r),
            state: if c.commits_at(t) {
                Ch::after_f128(
                    s2,
                    root_element(
                        epoch_root(ntt, cw, c, challenges, ((t - c.log_batch) / 6) as nat),
                    ),
                )
            } else {
                s2
            },
        }
    }
}

/// The state after `n` samples.
pub open spec fn state_after_samples<Ch: Challenger>(s: Ch::State, n: nat) -> Ch::State
    decreases n,
{
    if n == 0 {
        s
    } else {
        Ch::after_sample(state_after_samples::<Ch>(s, (n - 1) as nat))
    }
}

/// The query position number `i`: a challenge modulo the number of positions.
pub open spec fn query_position<Ch: Challenger>(s: Ch::State, k_code: nat, i: nat) -> int {
    Ch::challenge(state_after_samples::<Ch>(s, i)).lo as int % pow2(k_code) as int
}

/// The query positions.
pub open spec fn query_positions<Ch: Challenger>(s: Ch::State, k_code: nat, n: nat) -> Seq<usize> {
    Seq::new(n, |i: int| query_position::<Ch>(s, k_code, i as nat) as usize)
}

/// The leaf of the tree of epoch `e` that a position lies in.
pub open spec fn epoch_index(c: Code, e: nat, position: int) -> int {
    position / (pow2(6 * e + c.arity(e)) as int)
}

/// The leaves of the tree of epoch `e` that the positions lie in.
pub open spec fn epoch_indices(c: Code, e: nat, positions: Seq<usize>) -> Seq<usize> {
    Seq::new(positions.len(), |i: int| epoch_index(c, e, positions[i] as int) as usize)
}

/// The values of the leaf of epoch `e` that a position lies in.
pub open spec fn epoch_leaf(
    ntt: &AdditiveNttF128,
    cw: Seq<F128>,
    c: Code,
    ch: Seq<F128>,
    e: nat,
    position: int,
) -> Seq<F128> {
    let n = pow2(c.arity(e)) as int;
    let at = epoch_index(c, e, position) * n;
    folded_codeword(ntt, cw, c, ch, 6 * e).subrange(at, at + n)
}

/// The values that a query opens.
pub open spec fn opens(
    q: QueryOpening,
    ntt: &AdditiveNttF128,
    cw: Seq<F128>,
    c: Code,
    ch: Seq<F128>,
    position: usize,
) -> bool {
    &&& q.position == position
    &&& q.initial_leaf@ == cw.subrange(position * c.lanes(), position * c.lanes() + c.lanes())
    &&& q.post_row_batch_leaf@ == (if c.epochs() == 0 {
        Seq::<F128>::empty()
    } else {
        epoch_leaf(ntt, cw, c, ch, 0, position as int)
    })
    &&& q.epoch_leaves@.len() == (if c.epochs() == 0 {
        0
    } else {
        (c.epochs() - 1) as nat
    })
    &&& forall|i: int|
        0 <= i < q.epoch_leaves@.len() ==> (#[trigger] q.epoch_leaves@[i])@ == epoch_leaf(
            ntt,
            cw,
            c,
            ch,
            (i + 1) as nat,
            position as int,
        )
}

/// The proof of an honest run that starts in state `s`, and the state it ends in.
pub open spec fn honest_run<Ch: Challenger>(
    s: Ch::State,
    end: Ch::State,
    out: BaseFoldProof,
    ntt: &AdditiveNttF128,
    cw: Seq<F128>,
    tree: Seq<Hash32>,
    c: Code,
    a: Seq<F128>,
    b: Seq<F128>,
    prime: Option<(F128, F128)>,
    n_queries: nat,
) -> bool {
    let p = fold_rounds::<Ch>(
        Ch::after_label(s, basefold_label()),
        ntt,
        cw,
        c,
        a,
        b,
        prime,
        c.rounds(),
    );
    let positions = query_positions::<Ch>(p.state, c.k_code(), n_queries);
    &&& out.round_messages@.len() == c.rounds()
    &&& forall|i: int|
        0 <= i < c.rounds() ==> (#[trigger] out.round_messages@[i]).u_0 == p.messages[i].0
            && out.round_messages@[i].u_2 == p.messages[i].1
    &&& out.post_row_batch_commit.root@ == (if c.epochs() == 0 {
        Seq::new(32, |i: int| 0u8)
    } else {
        epoch_root(ntt, cw, c, p.challenges, 0)
    })
    &&& out.round_commitments@.len() == (if c.epochs() == 0 {
        0
    } else {
        (c.epochs() - 1) as nat
    })
    &&& forall|i: int|
        0 <= i < out.round_commitments@.len() ==> (#[trigger] out.round_commitments@[i]).root@
            == epoch_root(ntt, cw, c, p.challenges, (i + 1) as nat)
    &&& out.final_a == p.a[0]
    &&& out.final_b == p.b[0]
    &&& out.final_codeword@ == folded_codeword(ntt, cw, c, p.challenges, c.log_dim)
    &&& out.queries@.len() == n_queries
    &&& forall|i: int|
        0 <= i < n_queries ==> opens(
            #[trigger] out.queries@[i],
            ntt,
            cw,
            c,
            p.challenges,
            positions[i],
        )
    &&& hash_views(out.initial_multi_proof@) == multi_proof_from(
        tree,
        c.k_code(),
        0,
        sorted_positions(positions),
    )
    &&& hash_views(out.post_row_batch_multi_proof@) == (if c.epochs() == 0 {
        Seq::<Seq<u8>>::empty()
    } else {
        multi_proof_of(
            epoch_leaf_hashes(ntt, cw, c, p.challenges, 0),
            c.epoch_log(0),
            0,
            sorted_positions(epoch_indices(c, 0, positions)),
        )
    })
    &&& out.epoch_multi_proofs@.len() == out.round_commitments@.len()
    &&& forall|i: int|
        0 <= i < out.epoch_multi_proofs@.len() ==> hash_views(
            (#[trigger] out.epoch_multi_proofs@[i])@,
        ) == multi_proof_of(
            epoch_leaf_hashes(ntt, cw, c, p.challenges, (i + 1) as nat),
            c.epoch_log((i + 1) as nat),
            0,
            sorted_positions(epoch_indices(c, (i + 1) as nat, positions)),
        )
    &&& end == state_after_samples::<Ch>(p.state, n_queries)
}

} // verus!
