//! HyperPlonk-style permutation check over GF(2^128).
//!
//! Proves that two multilinear polynomials `f, g` over the boolean hypercube
//! `B_μ` (`N = 2^μ` evaluations) are related by a permutation `σ` of `[0, N)`,
//! via the multiset equality
//!
//!   { (f(x), s_id(x)) : x ∈ B_μ }  =  { (g(x), s_σ(x)) : x ∈ B_μ }
//!
//! where `s_id` is an injective index tag and `s_σ(x) = s_id(σ(x))`. With this
//! choice the relation is equivalent to `f(x) = g(σ⁻¹(x))` for all `x`
//! (equivalently `f(σ(x)) = g(x)`); Plonk copy-constraints are the `f == g`
//! special case. The multiset equality is what makes `∏ p(x) = ∏ q(x)` hold.
//!
//! ## Construction (single fractional product)
//!
//! Sample `β, γ`. Set `p(x) = f(x) + β·s_id(x) + γ`, `q(x) = g(x) + β·s_σ(x) + γ`,
//! and the leaf fractions `ℓ(x) = p(x)·q(x)⁻¹`. Multiset equality ⟺ `∏ ℓ(x) = 1`.
//! We prove this with a binary product tree encoded in **one** auxiliary
//! multilinear `v` (size `2N`): its first half holds the leaves `v(0,x) = ℓ(x)`
//! and its second half the internal products. A single batched zerocheck over
//! `μ` variables combines two relations with powers of a challenge `α`:
//!
//!   A (fraction):  v(0,x)·q(x) ⊕ p(x) = 0      (leaves = p/q)
//!   B (recursion): c(x) ⊕ a(x)·b(x) = 0,  a=v(·,0), b=v(·,1), c=v(1,·)
//!
//! plus the root check `v[2N-2] = ∏ℓ = 1`. Because the leaves live *inside* `v`
//! (its first half), there is no separate `h` polynomial and no separate
//! "leaf-consistency" relation — relation A constrains `v(0,·)` directly.
//!
//! ## Scope
//!
//! This is a PIOP for the witness side (`f, g`): `prove`/`verify` reduce the
//! claim to MLE evaluation claims on `f, g, s_σ` at a random point `ρ` (returned
//! in `PermutationClaim`); a downstream PCS over the witness would open them. The
//! caller must absorb `f, g, σ` into the challenger before calling.
//!
//! The single prover-created aux polynomial `v` is committed with the PCS: its
//! Merkle root is observed into the transcript before the zerocheck challenges
//! (binding `v` — a known `ρ` would break zerocheck soundness), and after the
//! sumcheck `v` is opened at five points — `(ρ,0), (ρ,1), (1,ρ), (0,ρ)` and the
//! product root `2N-2` — in one batched opening.
//!
//! ### Adaptive PCS backend
//!
//! The opening uses a recursive backend (Ligerito) when `v` is large enough for its
//! recursion to be feasible, and falls back to **BaseFold** otherwise. The floor is
//! `log_n ≥ 8` (the first block must hold 243 distinct queries, so `2^log_n ≥ 243`);
//! since `v` has `μ+1` vars, that means **Ligerito at `μ ≥ 7`**, BaseFold below. The
//! choice is a deterministic function of `v`'s size, so prover and verifier agree without
//! negotiation; the backend is recorded in the proof via [`BatchOpening`], and a proof
//! with the other one is refused.
//!
//! The backend itself is the caller's: at `μ ≥ 7` the prover hands over the claim that is
//! to be proved ([`Proved::Backend`]) and [`prover::finish`] takes the backend's proof; the
//! verifier hands over the claim that is to be verified ([`Verified::Backend`]) and
//! [`check::finish`] takes the backend's answer.
use vstd::arithmetic::power2::{lemma2_to64, lemma_pow2_adds, lemma_pow2_pos, pow2};
use vstd::prelude::*;
use crate::algebra::sum;
use crate::challenger::Challenger;
use crate::field::F128;
use crate::hash::Hash32;
use crate::pcs;
use crate::pcs::combine::{
    batch_challenges, batch_label, claim_tables, claim_targets, combined, total, BatchChallenges,
    CombinedClaim, PackedDirectClaim,
};
use crate::pcs::commit::{Commitment, PcsParams, ProverData};
use crate::pcs::fold::{fold_low, low_message};
use crate::pcs::laws::committed;
use crate::pcs::open::{batch_opened, BatchOpening};
use crate::pcs::pack::LOG_PACKING;
use crate::pcs::residual::BackendClaim;
use crate::zerocheck::dense_padding;
use crate::zerocheck::multilinear::eq_table;

pub mod binding;
pub mod check;
pub mod laws;
pub mod prover;
pub mod tables;

pub use check::verify;
pub use prover::prove;

verus! {

/// Permutation-check proof. `rounds` carries the per-round `(G(1), G(∞))`
/// messages (bare, no `r[i]` prefactor); the eight evals are the
/// MLE openings the sumcheck reduces to.
#[derive(Clone, Debug, PartialEq, Eq)]
pub struct PermutationProof<L> {
    /// Merkle root of the PCS commitment to the grand-product poly `v` (size `2N`).
    pub v_root: Hash32,
    /// Claimed grand product `∏ ℓ(x)`; must be `ONE` for an honest permutation.
    pub claimed_product: F128,
    /// Per-round `(G(1), G(∞))`, length `μ`.
    pub rounds: Vec<(F128, F128)>,
    pub f_eval: F128,
    pub g_eval: F128,
    pub s_sigma_eval: F128,
    /// `v(ρ, 0)`.
    pub v_x0: F128,
    /// `v(ρ, 1)`.
    pub v_x1: F128,
    /// `v(1, ρ)`.
    pub v_1x: F128,
    /// `v(0, ρ)` — the leaf value `ℓ(ρ)`, used in relation A.
    pub v_0x: F128,
    /// PCS opening of `v` at the five points `(ρ,0), (ρ,1), (1,ρ), (0,ρ)` and the
    /// product root `2N-2`.
    pub v_open: BatchOpening<L>,
}

/// What a proof holds beside the opening of `v`.
#[derive(Clone, Debug, PartialEq, Eq)]
pub struct PermutationHead {
    pub v_root: Hash32,
    pub claimed_product: F128,
    pub rounds: Vec<(F128, F128)>,
    pub f_eval: F128,
    pub g_eval: F128,
    pub s_sigma_eval: F128,
    pub v_x0: F128,
    pub v_x1: F128,
    pub v_1x: F128,
    pub v_0x: F128,
}

impl<L> PermutationProof<L> {
    /// The proof without its opening.
    pub open spec fn head(self) -> PermutationHead {
        PermutationHead {
            v_root: self.v_root,
            claimed_product: self.claimed_product,
            rounds: self.rounds,
            f_eval: self.f_eval,
            g_eval: self.g_eval,
            s_sigma_eval: self.s_sigma_eval,
            v_x0: self.v_x0,
            v_x1: self.v_x1,
            v_1x: self.v_1x,
            v_0x: self.v_0x,
        }
    }
}

/// Evaluation claims the verifier outputs. `f_eval, g_eval, s_sigma_eval` are
/// for a downstream witness PCS; the `v_*` evals are already proven here by the
/// `v` opening and are surfaced for inspection.
#[derive(Clone, Debug, PartialEq, Eq)]
pub struct PermutationClaim {
    pub rho: Vec<F128>,
    pub f_eval: F128,
    pub g_eval: F128,
    pub s_sigma_eval: F128,
    pub v_x0: F128,
    pub v_x1: F128,
    pub v_1x: F128,
    pub v_0x: F128,
}

/// A prover that has come to the opening of a `v` that a recursive backend opens.
#[derive(Debug)]
pub struct PendingPermutation {
    pub head: PermutationHead,
    pub claim: PermutationClaim,
    /// The grand-product table, with its commitment.
    pub v: Vec<F128>,
    pub commitment: Commitment,
    pub prover_data: ProverData,
    /// The claim on `v` that the backend is to prove.
    pub combined: CombinedClaim,
}

/// What the prover arrives at.
#[derive(Debug)]
pub enum Proved<L> {
    /// `v` is opened with BaseFold: the proof is complete.
    Done(PermutationProof<L>, PermutationClaim),
    /// The backend is to prove the claim on `v`.
    Backend(PendingPermutation),
}

/// What the verifier of a proof with nothing wrong arrives at.
#[derive(Debug)]
pub enum Verified {
    /// The proof is accepted.
    Done(PermutationClaim),
    /// The proof is accepted if the backend accepts the claim on `v`, which is opened at
    /// the given points.
    Backend { claim: PermutationClaim, points: [Vec<F128>; 5], backend: BackendClaim },
}

#[derive(Clone, Copy, Debug, PartialEq, Eq)]
pub enum VerifyError {
    /// Final sumcheck consistency `c_running == F(ρ)` failed.
    SumcheckFinalFailed,
    /// Claimed grand product was not `1`.
    RootNotOne,
    /// The PCS opening of `v` failed to verify.
    PcsOpen(pcs::verify::VerifyError),
    /// An opening's backend (Ligerito / BaseFold) did not match the backend the
    /// verifier derives from the polynomial's size.
    BackendMismatch,
}

// ---------------------------------------------------------------------------
// The polynomials
// ---------------------------------------------------------------------------

/// The tag of index `x`: the field element whose bit pattern is `x`.
pub open spec fn tag(x: int) -> F128 {
    F128 { lo: x as u64, hi: 0 }
}

/// The tags of all indices.
pub open spec fn tags(n: nat) -> Seq<F128> {
    Seq::new(n, |x: int| tag(x))
}

/// The tags of the images under `σ`.
pub open spec fn image_tags(sigma: Seq<usize>) -> Seq<F128> {
    Seq::new(sigma.len(), |x: int| tag(sigma[x] as int))
}

/// `f(x) + β·t(x) + γ`.
pub open spec fn masked(f: Seq<F128>, t: Seq<F128>, beta: F128, gamma: F128) -> Seq<F128> {
    Seq::new(f.len(), |x: int| f[x] + beta * t[x] + gamma)
}

/// Values inverted together: one inversion serves a chunk of this size.
pub const CHUNK: usize = 16384;

/// Whether some value of the chunk of index `i` is zero.
pub open spec fn chunk_has_zero(q: Seq<F128>, i: int) -> bool {
    exists|j: int|
        0 <= j < q.len() && j / (CHUNK as int) == i / (CHUNK as int) && #[trigger] q[j]
            == F128::zero()
}

/// The inverse of each value; zero throughout a chunk that holds a zero.
pub open spec fn inverses(q: Seq<F128>) -> Seq<F128> {
    Seq::new(
        q.len(),
        |i: int|
            if chunk_has_zero(q, i) {
                F128::zero()
            } else {
                q[i].inverse()
            },
    )
}

/// The leaf fractions.
pub open spec fn fractions(p: Seq<F128>, q: Seq<F128>) -> Seq<F128> {
    Seq::new(p.len(), |x: int| p[x] * inverses(q)[x])
}

/// Entry `i` of the grand-product table over the leaves `h`: the leaves, then
/// the products of adjacent pairs, with a zero at the end.
pub open spec fn product_entry(h: Seq<F128>, i: int) -> F128
    decreases i,
{
    let n = h.len() as int;
    if i < n {
        h[i]
    } else if i >= 2 * n - 1 {
        F128::zero()
    } else {
        product_entry(h, 2 * (i - n)) * product_entry(h, 2 * (i - n) + 1)
    }
}

/// The grand-product table.
pub open spec fn product_table(h: Seq<F128>) -> Seq<F128> {
    Seq::new(2 * h.len(), |i: int| product_entry(h, i))
}

/// Every other entry from `from` on.
pub open spec fn strided(v: Seq<F128>, from: int) -> Seq<F128> {
    Seq::new(v.len() / 2, |i: int| v[2 * i + from])
}

// ---------------------------------------------------------------------------
// The zerocheck
// ---------------------------------------------------------------------------

/// The tables of the batched relation.
pub struct Tables {
    pub f: Seq<F128>,
    pub g: Seq<F128>,
    pub s_id: Seq<F128>,
    pub s_sigma: Seq<F128>,
    pub a: Seq<F128>,
    pub b: Seq<F128>,
    pub c: Seq<F128>,
    pub v0: Seq<F128>,
}

/// The challenges of the relation.
pub struct Mix {
    pub beta: F128,
    pub gamma: F128,
    pub alpha: F128,
}

impl Tables {
    pub open spec fn q(self, m: Mix, i: int) -> F128 {
        self.g[i] + m.beta * self.s_sigma[i] + m.gamma
    }

    pub open spec fn p(self, m: Mix, i: int) -> F128 {
        self.f[i] + m.beta * self.s_id[i] + m.gamma
    }

    /// `F = F_A + α·F_B` at index `i`.
    pub open spec fn relation(self, m: Mix, i: int) -> F128 {
        (self.v0[i] * self.q(m, i) + self.p(m, i)) + m.alpha * (self.c[i] + self.a[i] * self.b[i])
    }

    /// The leading coefficient, in the lowest variable, of `F` on the pair `x`.
    pub open spec fn leading(self, m: Mix, x: int) -> F128 {
        (self.v0[2 * x] + self.v0[2 * x + 1]) * (self.q(m, 2 * x) + self.q(m, 2 * x + 1)) + m.alpha
            * ((self.a[2 * x] + self.a[2 * x + 1]) * (self.b[2 * x] + self.b[2 * x + 1]))
    }

    pub open spec fn one_term(self, m: Mix, e: Seq<F128>) -> spec_fn(int) -> F128 {
        |x: int| e[x] * self.relation(m, 2 * x + 1)
    }

    pub open spec fn inf_term(self, m: Mix, e: Seq<F128>) -> spec_fn(int) -> F128 {
        |x: int| e[x] * self.leading(m, x)
    }

    /// `(G(1), G(∞))`, with the weights of the variables not bound yet.
    pub open spec fn message(self, m: Mix, rest: Seq<F128>) -> (F128, F128) {
        let e = eq_table(rest);
        (sum(e.len(), self.one_term(m, e)), sum(e.len(), self.inf_term(m, e)))
    }

    /// The tables with their lowest variable bound.
    pub open spec fn folded(self, r: F128) -> Tables {
        Tables {
            f: fold_low(self.f, r),
            g: fold_low(self.g, r),
            s_id: fold_low(self.s_id, r),
            s_sigma: fold_low(self.s_sigma, r),
            a: fold_low(self.a, r),
            b: fold_low(self.b, r),
            c: fold_low(self.c, r),
            v0: fold_low(self.v0, r),
        }
    }
}

/// The tables of an instance whose grand-product table is `v`.
pub open spec fn instance_tables(
    f: Seq<F128>,
    g: Seq<F128>,
    sigma: Seq<usize>,
    v: Seq<F128>,
) -> Tables {
    let n = f.len() as int;
    Tables {
        f,
        g,
        s_id: tags(f.len()),
        s_sigma: image_tags(sigma),
        a: strided(v, 0),
        b: strided(v, 1),
        c: v.subrange(n, 2 * n),
        v0: v.subrange(0, n),
    }
}

/// The prover after some rounds.
pub struct PermRounds<S> {
    pub messages: Seq<(F128, F128)>,
    pub rho: Seq<F128>,
    pub tables: Tables,
    pub state: S,
}

pub open spec fn perm_rounds<Ch: Challenger>(
    s: Ch::State,
    tables: Tables,
    m: Mix,
    r: Seq<F128>,
    t: nat,
) -> PermRounds<Ch::State>
    decreases t,
{
    if t == 0 {
        PermRounds { messages: Seq::empty(), rho: Seq::empty(), tables, state: s }
    } else {
        let p = perm_rounds::<Ch>(s, tables, m, r, (t - 1) as nat);
        let (g1, g_inf) = p.tables.message(m, r.subrange(t as int, r.len() as int));
        let s1 = Ch::after_f128(Ch::after_f128(p.state, g1), g_inf);
        let rho_i = Ch::challenge(s1);
        PermRounds {
            messages: p.messages.push((g1, g_inf)),
            rho: p.rho.push(rho_i),
            tables: p.tables.folded(rho_i),
            state: Ch::after_sample(s1),
        }
    }
}

/// `flock-perm-v0`.
pub open spec fn perm_label() -> Seq<u8> {
    seq![0x66u8, 0x6c, 0x6f, 0x63, 0x6b, 0x2d, 0x70, 0x65, 0x72, 0x6d, 0x2d, 0x76, 0x30]
}

/// What the transcript yields before the rounds.
pub struct PermChallenges<S> {
    pub mix: Mix,
    pub r: Seq<F128>,
    pub state: S,
}

/// The state in which `β` is sampled.
pub open spec fn beta_state<Ch: Challenger>(s: Ch::State) -> Ch::State {
    Ch::after_label(s, perm_label())
}

/// The state in which `γ` is sampled.
pub open spec fn gamma_state<Ch: Challenger>(s: Ch::State) -> Ch::State {
    Ch::after_sample(beta_state::<Ch>(s))
}

/// The challenges, once the root and the claimed product are known.
pub open spec fn perm_challenges<Ch: Challenger>(
    s: Ch::State,
    root: Seq<u8>,
    product: F128,
    mu: nat,
) -> PermChallenges<Ch::State> {
    let s4 = Ch::after_f128(
        Ch::after_bytes(Ch::after_sample(gamma_state::<Ch>(s)), root),
        product,
    );
    let s5 = Ch::after_sample(s4);
    PermChallenges {
        mix: Mix {
            beta: Ch::challenge(beta_state::<Ch>(s)),
            gamma: Ch::challenge(gamma_state::<Ch>(s)),
            alpha: Ch::challenge(s4),
        },
        r: Ch::challenge_vec(s5, mu),
        state: Ch::after_sample_vec(s5, mu),
    }
}

/// The state after some values have been observed.
pub open spec fn after_values<Ch: Challenger>(s: Ch::State, values: Seq<F128>) -> Ch::State
    decreases values.len(),
{
    if values.len() == 0 {
        s
    } else {
        Ch::after_f128(after_values::<Ch>(s, values.drop_last()), values.last())
    }
}

/// The five points at which `v` is opened.
pub open spec fn v_points(rho: Seq<F128>) -> Seq<Seq<F128>> {
    seq![
        seq![F128::zero()] + rho,
        seq![F128::one()] + rho,
        rho.push(F128::one()),
        rho.push(F128::zero()),
        seq![F128::zero()] + Seq::new(rho.len(), |i: int| F128::one()),
    ]
}

/// The values claimed at the five points.
pub open spec fn v_values(h: PermutationHead) -> Seq<F128> {
    seq![h.v_x0, h.v_x1, h.v_1x, h.v_0x, h.claimed_product]
}

/// The values that are observed before the opening.
pub open spec fn evals(h: PermutationHead) -> Seq<F128> {
    seq![
        h.f_eval,
        h.g_eval,
        h.s_sigma_eval,
        h.v_x0,
        h.v_x1,
        h.v_1x,
        h.v_0x,
    ]
}

/// RS inverse rate (log₂) for the aux-poly commitment.
pub const PCS_LOG_INV_RATE: usize = 1;

/// Interleaving batch size (log₂) for the aux-poly commitment.
pub const PCS_LOG_BATCH_SIZE: usize = 1;

/// PCS parameters for committing a multilinear in `num_vars` variables.
pub open spec fn params_of(num_vars: nat) -> PcsParams {
    PcsParams {
        m: (num_vars + LOG_PACKING) as usize,
        log_inv_rate: PCS_LOG_INV_RATE,
        log_batch_size: PCS_LOG_BATCH_SIZE,
    }
}

/// The instance is small enough for its auxiliary polynomial to be committed
/// and opened.
pub open spec fn fits(mu: nat) -> bool {
    pow2(mu + 8) <= usize::MAX
}

/// The least number of variables for which a recursive opening is feasible.
pub const LIGERITO_MIN_VARS: usize = 8;

/// Whether a polynomial in `num_vars` variables is opened with the recursive backend.
pub open spec fn recursion_is_feasible(num_vars: nat) -> bool {
    num_vars >= LIGERITO_MIN_VARS
}

/// PCS parameters for committing an `F128` multilinear in `num_vars` variables
/// (committed vector length `2^num_vars`). `m = num_vars + LOG_PACKING` so the
/// packed-direct opening point has length `num_vars`. The verifier rebuilds
/// these deterministically from `μ`, so the proof carries only the Merkle root.
pub(crate) fn pcs_params(num_vars: usize) -> (params: PcsParams)
    requires
        1 <= num_vars <= usize::MAX - LOG_PACKING,
    ensures
        params == params_of(num_vars as nat),
        params.m == num_vars + LOG_PACKING,
        params.msg_log() == num_vars,
        params.code_dim() == num_vars,
        pow2(num_vars as nat + 7) <= usize::MAX ==> params.wf(),
{
    proof {
        lemma2_to64();
        if pow2(num_vars as nat + 7) <= usize::MAX {
            crate::index::lemma_pow2_fits(num_vars as nat + 7);
        }
        lemma_pow2_adds(num_vars as nat, 7);
        lemma_pow2_pos(num_vars as nat);
        let (x, y) = (pow2(num_vars as nat) as int, pow2(PCS_LOG_BATCH_SIZE as nat) as int);
        assert(x * (2 * y) == 4 * x) by (nonlinear_arith)
            requires
                y == 2,
        ;
    }
    PcsParams {
        m: num_vars + LOG_PACKING,
        log_inv_rate: PCS_LOG_INV_RATE,
        log_batch_size: PCS_LOG_BATCH_SIZE,
    }
}

/// The tables of the five claims on `v`.
pub open spec fn v_tables(rho: Seq<F128>) -> Seq<Seq<F128>> {
    Seq::new(5, |k: int| eq_table(v_points(rho)[k]))
}

/// The claims are those on `v` at the five points.
pub open spec fn opens_v(pd: Seq<PackedDirectClaim>, rho: Seq<F128>, h: PermutationHead) -> bool {
    &&& pd.len() == 5
    &&& forall|k: int|
        0 <= k < 5 ==> {
            &&& (#[trigger] pd[k]).point@ == v_points(rho)[k]
            &&& pd[k].value == v_values(h)[k]
            &&& pd[k].eq_ind.table() == eq_table(v_points(rho)[k])
        }
}

/// The challenges of the batch of claims on `v`.
pub open spec fn v_challenges<Ch: Challenger>(s: Ch::State, h: PermutationHead) -> BatchChallenges<
    Ch::State,
> {
    batch_challenges::<Ch>(Ch::after_label(s, batch_label()), Seq::empty(), v_values(h))
}

/// The table of the combined claim on `v`.
pub open spec fn v_table<S>(bc: BatchChallenges<S>, rho: Seq<F128>) -> Seq<F128> {
    combined(claim_tables(bc, Seq::empty(), v_tables(rho)), pow2(rho.len() + 1))
}

/// The target of the combined claim on `v`.
pub open spec fn v_target<S>(bc: BatchChallenges<S>, h: PermutationHead) -> F128 {
    total(claim_targets(bc, Seq::empty(), v_values(h)))
}

/// The grand-product table of an honest run.
pub open spec fn honest_v<Ch: Challenger>(
    s: Ch::State,
    f: Seq<F128>,
    g: Seq<F128>,
    sigma: Seq<usize>,
) -> Seq<F128> {
    let beta = Ch::challenge(beta_state::<Ch>(s));
    let gamma = Ch::challenge(gamma_state::<Ch>(s));
    product_table(
        fractions(
            masked(f, tags(f.len()), beta, gamma),
            masked(g, image_tags(sigma), beta, gamma),
        ),
    )
}

/// The rounds of an honest run.
pub open spec fn honest_rounds<Ch: Challenger>(
    s: Ch::State,
    f: Seq<F128>,
    g: Seq<F128>,
    sigma: Seq<usize>,
    mu: nat,
    h: PermutationHead,
) -> PermRounds<Ch::State> {
    let pc = perm_challenges::<Ch>(s, h.v_root@, h.claimed_product, mu);
    perm_rounds::<Ch>(
        pc.state,
        instance_tables(f, g, sigma, honest_v::<Ch>(s, f, g, sigma)),
        pc.mix,
        pc.r,
        mu,
    )
}

/// The state in which an honest run comes to the opening of `v`.
pub open spec fn opening_state<Ch: Challenger>(
    s: Ch::State,
    f: Seq<F128>,
    g: Seq<F128>,
    sigma: Seq<usize>,
    mu: nat,
    h: PermutationHead,
) -> Ch::State {
    after_values::<Ch>(honest_rounds::<Ch>(s, f, g, sigma, mu, h).state, evals(h))
}

/// An honest run of the prover up to the opening of `v`: what the proof holds so far, and
/// the claim.
pub open spec fn honest_head<Ch: Challenger>(
    s: Ch::State,
    f: Seq<F128>,
    g: Seq<F128>,
    sigma: Seq<usize>,
    mu: nat,
    h: PermutationHead,
    claim: PermutationClaim,
) -> bool {
    let v = honest_v::<Ch>(s, f, g, sigma);
    let p = honest_rounds::<Ch>(s, f, g, sigma, mu, h);
    &&& h.claimed_product == v[2 * f.len() - 2]
    &&& h.rounds@ == p.messages
    &&& h.f_eval == p.tables.f[0]
    &&& h.g_eval == p.tables.g[0]
    &&& h.s_sigma_eval == p.tables.s_sigma[0]
    &&& h.v_x0 == p.tables.a[0]
    &&& h.v_x1 == p.tables.b[0]
    &&& h.v_1x == p.tables.c[0]
    &&& h.v_0x == p.tables.v0[0]
    &&& same_claim(claim, p.rho, h)
}

/// An honest run of the prover with BaseFold: the proof, the claim and the state it ends in.
pub open spec fn honest_permutation<Ch: Challenger, L>(
    s: Ch::State,
    end: Ch::State,
    f: Seq<F128>,
    g: Seq<F128>,
    sigma: Seq<usize>,
    mu: nat,
    out: PermutationProof<L>,
    claim: PermutationClaim,
) -> bool {
    let h = out.head();
    let v = honest_v::<Ch>(s, f, g, sigma);
    let commitment = Commitment { root: out.v_root, params: params_of(mu + 1) };
    &&& !recursion_is_feasible(mu + 1)
    &&& honest_head::<Ch>(s, f, g, sigma, mu, h, claim)
    &&& out.v_open is BaseFold
    &&& exists|data: ProverData, pd: Seq<PackedDirectClaim>|
        #![trigger committed(v, commitment, data), opens_v(pd, claim.rho@, h)]
        {
            &&& committed(v, commitment, data)
            &&& opens_v(pd, claim.rho@, h)
            &&& batch_opened::<Ch>(
                opening_state::<Ch>(s, f, g, sigma, mu, h),
                end,
                out.v_open->BaseFold_0,
                v,
                data,
                commitment.params,
                Seq::empty(),
                Seq::empty(),
                pd,
                dense_padding(commitment.params.m),
            )
        }
}

/// An honest run of the prover up to the recursive backend: what it hands over, and the
/// state that the backend starts in.
pub open spec fn honest_pending<Ch: Challenger>(
    s: Ch::State,
    end: Ch::State,
    f: Seq<F128>,
    g: Seq<F128>,
    sigma: Seq<usize>,
    mu: nat,
    out: PendingPermutation,
) -> bool {
    let h = out.head;
    let bc = v_challenges::<Ch>(opening_state::<Ch>(s, f, g, sigma, mu, h), h);
    &&& recursion_is_feasible(mu + 1)
    &&& honest_head::<Ch>(s, f, g, sigma, mu, h, out.claim)
    &&& out.v@ == honest_v::<Ch>(s, f, g, sigma)
    &&& out.commitment == (Commitment { root: h.v_root, params: params_of(mu + 1) })
    &&& committed(out.v@, out.commitment, out.prover_data)
    &&& out.combined.ring_switches@.len() == 0
    &&& out.combined.b_combined@ == v_table(bc, out.claim.rho@)
    &&& out.combined.target_combined == v_target(bc, h)
    &&& out.combined.round0_prime == low_message(out.v@, out.combined.b_combined@)
    &&& end == bc.state
}

/// The claim repeats the evaluations of the proof.
pub open spec fn same_claim(
    claim: PermutationClaim,
    rho: Seq<F128>,
    h: PermutationHead,
) -> bool {
    &&& claim.rho@ == rho
    &&& claim.f_eval == h.f_eval
    &&& claim.g_eval == h.g_eval
    &&& claim.s_sigma_eval == h.s_sigma_eval
    &&& claim.v_x0 == h.v_x0
    &&& claim.v_x1 == h.v_x1
    &&& claim.v_1x == h.v_1x
    &&& claim.v_0x == h.v_0x
}

} // verus!
