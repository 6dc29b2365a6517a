//! The lincheck prover and verifier.
use vstd::arithmetic::power2::{
    lemma_pow2_adds, lemma_pow2_strictly_increases, lemma_pow2_unfold, pow2,
};
use vstd::prelude::*;
use crate::algebra::sum;
use crate::challenger::Challenger;
use crate::field::F128;
use crate::index::pow2_usize;
use crate::lincheck::circuit::LincheckCircuit;
use crate::lincheck::fold::{
    build_quirky_eq_table, inner_product, outer_fold, partial_fold_packed_z_fast_padded,
    quirky_table, stripes_fit,
};
use crate::lincheck::sumcheck::{
    sumcheck_bind_both_and_eval_next, sumcheck_bind_top_in_place_par, sumcheck_round_eval_par,
};
use crate::r1cs::laws::bit_value;
use crate::zerocheck::multilinear::{
    bound_top, build_eq_table, dot, eq_table, lagrange_table, lagrange_weights_naive,
    round_message, round_value,
};

verus! {

/// A "quirky" claim point: one univariate-skip coord (`z_skip`) representing
/// the first `k_skip` variables via the polynomial extension with the φ_8 basis,
/// followed by multilinear coords for the rest of inner and for outer.
///
/// Total "elements" = `1 + (k_log − k_skip) + n_log`, which is the shape the
/// zerocheck's extract_c output uses.
#[derive(Clone, Debug, PartialEq, Eq)]
pub struct QuirkyPoint {
    /// Univariate-skip challenge ∈ F₁₂₈. Binds all `k_skip` skip variables.
    pub z_skip: F128,
    /// Multilinear coords for the inner dims *after* the skip block. Length
    /// `k_log − k_skip`.
    pub x_inner_rest: Vec<F128>,
    /// Multilinear coords for the outer dims. Length `n_log = m − k_log`.
    pub x_outer: Vec<F128>,
}

/// Lincheck prover message: a partial product-sumcheck that proves the two
/// scalar consistency equations against `z` partially folded at the shared
/// outer half `x_ab.x_outer`, without sending the full length-`2^k_log`
/// `z_vec`. Sumcheck binds the high `k_log − k_skip` multilinear inner dims;
/// the low `k_skip` (φ8 univariate-skip) dims are handled by sending
/// `z_partial` (the post-sumcheck length-`2^k_skip` collapsed vector) and
/// applying a fresh-`z_skip` φ8 Lagrange combination at verify time.
#[derive(Clone, Debug, PartialEq, Eq)]
pub struct LincheckProof {
    /// Per-round messages `(q(1), q(∞))` of the `k_log − k_skip`-round
    /// product-sumcheck. `q(0)` is recovered from the running claim
    /// (`q(0) = T_r + q(1)` in char 2). Standard multilinear binding.
    pub rounds: Vec<(F128, F128)>,
    /// The length-`2^k_skip` collapse of the prover's `z_vec` over the
    /// sumcheck-bound `r_rest` dims. Folded against φ8 Lagrange weights at a
    /// fresh `z_skip` to yield the output claim's value.
    pub z_partial: Vec<F128>,
}

/// Lincheck output: one MLE evaluation claim on `z`, at the quirky inner
/// point `(r_inner_skip, r_inner_rest)` combined with `x_ab.x_outer`
/// (publicly known to the caller).
#[derive(Clone, Debug, PartialEq, Eq)]
pub struct LincheckClaim {
    /// Univariate-skip post-vector random sample.
    pub r_inner_skip: F128,
    /// Multilinear post-vector random sample, length `k_log − k_skip`.
    pub r_inner_rest: Vec<F128>,
    /// `ẑ((r_inner_skip, r_inner_rest), x_ab.x_outer)` — the single
    /// `z`-claim derived from the A and B consistency checks.
    pub w: F128,
}

/// Reasons the verifier may reject.
#[derive(Clone, Debug, PartialEq, Eq)]
pub enum VerifyError {
    /// One of the proof vectors has the wrong length (expected `2^k_log`).
    BadVectorLength { which: &'static str, expected: usize, got: usize },
    /// One of the input quirky points has wrong `x_inner_rest` length
    /// (expected `k_log − k_skip`).
    BadInnerRestLength { which: &'static str, expected: usize, got: usize },
    /// One of the input quirky points has wrong `x_outer` length
    /// (expected `n_log = m − k_log`).
    BadOuterLength { which: &'static str, expected: usize, got: usize },
    /// One of the base matrices isn't `2^k_log × 2^k_log`.
    BadMatrixShape { which: &'static str, expected: usize, got_rows: usize, got_cols: usize },
    /// `k_skip` exceeds `k_log` (the matrix inner dimension).
    KSkipExceedsKLog { k_skip: usize, k_log: usize },
    /// The scalar consistency check failed for one of (A, B, C).
    ConsistencyFailed { which: &'static str },
}

/// `flock-lincheck-v0`.
pub open spec fn lincheck_label() -> Seq<u8> {
    seq![
        0x66u8, 0x6c, 0x6f, 0x63, 0x6b, 0x2d, 0x6c, 0x69, 0x6e, 0x63, 0x68, 0x65, 0x63, 0x6b, 0x2d,
        0x76, 0x30,
    ]
}

/// `α · ξ_A + ξ_B` for the weights `eq`.
pub open spec fn comb_vector<C: LincheckCircuit>(circuit: &C, alpha: F128, eq: Seq<F128>) -> Seq<
    F128,
> {
    Seq::new(
        circuit.side(),
        |c: int|
            alpha * sum(circuit.side(), |r: int| eq[r] * bit_value(circuit.a_entry(r, c))) + sum(
                circuit.side(),
                |r: int| eq[r] * bit_value(circuit.b_entry(r, c)),
            ),
    )
}

/// What prover and verifier agree on before the first round.
pub struct Opening<S> {
    pub alpha: F128,
    /// The weight of the pinned column, zero without a pin.
    pub beta: F128,
    pub comb: Seq<F128>,
    pub state: S,
}

/// The challenges `α` and, with a pinned wire, `β`, and the batched vector.
pub open spec fn opening<Ch: Challenger, C: LincheckCircuit>(
    s: Ch::State,
    circuit: &C,
    eq: Seq<F128>,
) -> Opening<Ch::State> {
    let s0 = Ch::after_label(s, lincheck_label());
    let alpha = Ch::challenge(s0);
    let s1 = Ch::after_sample(s0);
    let comb = comb_vector(circuit, alpha, eq);
    match circuit.pin() {
        None => Opening { alpha, beta: F128::zero(), comb, state: s1 },
        Some(col) => {
            let beta = Ch::challenge(s1);
            Opening {
                alpha,
                beta,
                comb: comb.update(col as int, comb[col as int] + beta),
                state: Ch::after_sample(s1),
            }
        },
    }
}

/// The prover after some rounds of the sumcheck.
pub struct ProverRounds<S> {
    pub messages: Seq<(F128, F128)>,
    pub challenges: Seq<F128>,
    pub comb: Seq<F128>,
    pub z: Seq<F128>,
    pub state: S,
}

pub open spec fn prover_rounds<Ch: Challenger>(
    s: Ch::State,
    comb: Seq<F128>,
    z: Seq<F128>,
    t: nat,
) -> ProverRounds<Ch::State>
    decreases t,
{
    if t == 0 {
        ProverRounds { messages: Seq::empty(), challenges: Seq::empty(), comb, z, state: s }
    } else {
        let p = prover_rounds::<Ch>(s, comb, z, (t - 1) as nat);
        let (e1, einf) = round_message(p.comb, p.z);
        let s1 = Ch::after_f128(Ch::after_f128(p.state, e1), einf);
        let r = Ch::challenge(s1);
        ProverRounds {
            messages: p.messages.push((e1, einf)),
            challenges: p.challenges.push(r),
            comb: bound_top(p.comb, r),
            z: bound_top(p.z, r),
            state: Ch::after_sample(s1),
        }
    }
}

/// The proof, the claim and the challenger's state that an honest run gives.
pub struct Transcript<S> {
    pub messages: Seq<(F128, F128)>,
    pub z_partial: Seq<F128>,
    pub claim: ClaimView,
    pub state: S,
}

pub struct ClaimView {
    pub r_inner_skip: F128,
    pub r_inner_rest: Seq<F128>,
    pub w: F128,
}

/// An honest run for the vector `z_vec`.
pub open spec fn prover_transcript<Ch: Challenger, C: LincheckCircuit>(
    s: Ch::State,
    circuit: &C,
    x_ab: QuirkyPoint,
    k_skip: nat,
    z_vec: Seq<F128>,
) -> Transcript<Ch::State> {
    let o = opening::<Ch, C>(s, circuit, quirky_table(x_ab.z_skip, x_ab.x_inner_rest@, k_skip));
    let p = prover_rounds::<Ch>(o.state, o.comb, z_vec, x_ab.x_inner_rest@.len());
    let s1 = Ch::after_f128_slice(p.state, p.z);
    let r_inner_skip = Ch::challenge(s1);
    Transcript {
        messages: p.messages,
        z_partial: p.z,
        claim: ClaimView {
            r_inner_skip,
            r_inner_rest: p.challenges.reverse(),
            w: dot(lagrange_table(k_skip, r_inner_skip), p.z),
        },
        state: Ch::after_sample(s1),
    }
}

/// The verifier after some rounds of the sumcheck.
pub struct VerifierRounds<S> {
    pub running: F128,
    pub challenges: Seq<F128>,
    pub comb: Seq<F128>,
    pub state: S,
}

pub open spec fn verifier_rounds<Ch: Challenger>(
    s: Ch::State,
    comb: Seq<F128>,
    target: F128,
    messages: Seq<(F128, F128)>,
    t: nat,
) -> VerifierRounds<Ch::State>
    decreases t,
{
    if t == 0 {
        VerifierRounds { running: target, challenges: Seq::empty(), comb, state: s }
    } else {
        let v = verifier_rounds::<Ch>(s, comb, target, messages, (t - 1) as nat);
        let (e1, einf) = messages[t - 1];
        let s1 = Ch::after_f128(Ch::after_f128(v.state, e1), einf);
        let r = Ch::challenge(s1);
        VerifierRounds {
            running: round_value(v.running, e1, einf, r),
            challenges: v.challenges.push(r),
            comb: bound_top(v.comb, r),
            state: Ch::after_sample(s1),
        }
    }
}

/// The verifier's decision and the challenger's state after it.
pub struct Verdict<S> {
    pub result: Result<ClaimView, VerifyError>,
    pub state: S,
}

/// What the verifier decides about the messages and the partial vector.
pub open spec fn verdict<Ch: Challenger, C: LincheckCircuit>(
    s: Ch::State,
    m: usize,
    k_log: usize,
    k_skip: usize,
    circuit: &C,
    x_ab: QuirkyPoint,
    v_a: F128,
    v_b: F128,
    messages: Seq<(F128, F128)>,
    z_partial: Seq<F128>,
) -> Verdict<Ch::State> {
    let k = pow2(k_log as nat);
    let rest = (k_log - k_skip) as usize;
    let n_skip = pow2(k_skip as nat);
    if k_skip > k_log {
        Verdict { result: Err(VerifyError::KSkipExceedsKLog { k_skip, k_log }), state: s }
    } else if x_ab.x_inner_rest@.len() != rest {
        Verdict {
            result: Err(
                VerifyError::BadInnerRestLength {
                    which: "x_ab",
                    expected: rest,
                    got: x_ab.x_inner_rest@.len() as usize,
                },
            ),
            state: s,
        }
    } else if x_ab.x_outer@.len() != m - k_log {
        Verdict {
            result: Err(
                VerifyError::BadOuterLength {
                    which: "x_ab",
                    expected: (m - k_log) as usize,
                    got: x_ab.x_outer@.len() as usize,
                },
            ),
            state: s,
        }
    } else if circuit.side() != k {
        Verdict {
            result: Err(
                VerifyError::BadMatrixShape {
                    which: "circuit",
                    expected: k as usize,
                    got_rows: k as usize,
                    got_cols: circuit.side() as usize,
                },
            ),
            state: s,
        }
    } else if messages.len() != rest {
        Verdict {
            result: Err(
                VerifyError::BadVectorLength {
                    which: "rounds",
                    expected: rest,
                    got: messages.len() as usize,
                },
            ),
            state: s,
        }
    } else if z_partial.len() != n_skip {
        Verdict {
            result: Err(
                VerifyError::BadVectorLength {
                    which: "z_partial",
                    expected: n_skip as usize,
                    got: z_partial.len() as usize,
                },
            ),
            state: s,
        }
    } else {
        let o = opening::<Ch, C>(
            s,
            circuit,
            quirky_table(x_ab.z_skip, x_ab.x_inner_rest@, k_skip as nat),
        );
        let v = verifier_rounds::<Ch>(
            o.state,
            o.comb,
            initial_target(circuit, o.alpha, o.beta, v_a, v_b),
            messages,
            rest as nat,
        );
        let s1 = Ch::after_f128_slice(v.state, z_partial);
        if v.running != dot(v.comb, z_partial) {
            Verdict {
                result: Err(VerifyError::ConsistencyFailed { which: "sumcheck-final" }),
                state: s1,
            }
        } else {
            let r_inner_skip = Ch::challenge(s1);
            Verdict {
                result: Ok(
                    ClaimView {
                        r_inner_skip,
                        r_inner_rest: v.challenges.reverse(),
                        w: dot(lagrange_table(k_skip as nat, r_inner_skip), z_partial),
                    },
                ),
                state: Ch::after_sample(s1),
            }
        }
    }
}

/// The sizes fit together: no shape is reported as wrong.
pub open spec fn shape_holds<C: LincheckCircuit>(
    m: usize,
    k_log: usize,
    k_skip: usize,
    circuit: &C,
    x_ab: QuirkyPoint,
    messages: Seq<(F128, F128)>,
    z_partial: Seq<F128>,
) -> bool {
    &&& k_skip <= k_log
    &&& x_ab.x_inner_rest@.len() == k_log - k_skip
    &&& x_ab.x_outer@.len() == m - k_log
    &&& circuit.side() == pow2(k_log as nat)
    &&& messages.len() == k_log - k_skip
    &&& z_partial.len() == pow2(k_skip as nat)
}

/// `α·v_a + v_b`, plus `β` for a pinned wire.
pub open spec fn initial_target<C: LincheckCircuit>(
    circuit: &C,
    alpha: F128,
    beta: F128,
    v_a: F128,
    v_b: F128,
) -> F128 {
    if circuit.pin() is None {
        alpha * v_a + v_b
    } else {
        alpha * v_a + v_b + beta
    }
}

/// The pinned column is one of the circuit's.
pub open spec fn pin_fits<C: LincheckCircuit>(circuit: &C) -> bool {
    circuit.pin() matches Some(col) ==> col < circuit.side()
}

/// The inputs of the prover fit together.
pub open spec fn prover_inputs_fit<C: LincheckCircuit>(
    z_packed: Seq<u8>,
    m: usize,
    k_log: usize,
    k_skip: usize,
    circuit: &C,
    x_ab: QuirkyPoint,
) -> bool {
    &&& stripes_fit(z_packed, m as int, k_log as int)
    &&& k_skip <= k_log
    &&& k_skip <= 8
    &&& circuit.wf()
    &&& circuit.side() == pow2(k_log as nat)
    &&& pin_fits(circuit)
    &&& x_ab.x_inner_rest@.len() == k_log - k_skip
    &&& x_ab.x_outer@.len() == m - k_log
}

/// `ẑ(·, x_outer)` on the first `useful` rows, zero on the others.
pub open spec fn z_vector(z_packed: Seq<u8>, k_log: usize, useful: usize, x_ab: QuirkyPoint) -> Seq<
    F128,
> {
    outer_fold(z_packed, pow2(k_log as nat) as int, eq_table(x_ab.x_outer@), useful as int)
}

/// Prove the lincheck statement for the block-diagonal R1CS instance
/// `A = I_{2^n_log} ⊗ a_0`, `B = I ⊗ b_0`, `C = I ⊗ c_0`.
///
/// Returns `(LincheckProof, LincheckClaim)`. The claim's `r_inner` is
/// sampled from the challenger after the proof vectors are observed.
pub fn prove<Ch: Challenger, C: LincheckCircuit>(
    z_packed: &[u8],
    m: usize,
    k_log: usize,
    k_skip: usize,
    circuit: &C,
    x_ab: &QuirkyPoint,
    challenger: &mut Ch,
) -> (out: (LincheckProof, LincheckClaim))
    requires
        prover_inputs_fit(z_packed@, m, k_log, k_skip, circuit, *x_ab),
    ensures
        ({
            let t = prover_transcript::<Ch, C>(
                old(challenger).state(),
                circuit,
                *x_ab,
                k_skip as nat,
                z_vector(z_packed@, k_log, pow2(k_log as nat) as usize, *x_ab),
            );
            &&& out.0.rounds@ == t.messages
            &&& out.0.z_partial@ == t.z_partial
            &&& out.1.r_inner_skip == t.claim.r_inner_skip
            &&& out.1.r_inner_rest@ == t.claim.r_inner_rest
            &&& out.1.w == t.claim.w
            &&& final(challenger).state() == t.state
        }),
{
    proof {
        crate::lincheck::fold::lemma_stripes(m as nat, k_log as nat);
    }
    let k: usize = pow2_usize(k_log);
    prove_padded(z_packed, m, k_log, k_skip, k, circuit, x_ab, challenger)
}

/// Padding-aware variant of [`prove`]. `useful_bits ≤ 2^k_log` declares how
/// many rows of each block carry real witness data; rows
/// `[useful_bits, 2^k_log)` are honest zero padding. The partial-fold over
/// the outer dimension skips work for those padding rows — the same
/// proof on a witness with zero-padded blocks.
pub fn prove_padded<Ch: Challenger, C: LincheckCircuit>(
    z_packed: &[u8],
    m: usize,
    k_log: usize,
    k_skip: usize,
    useful_bits: usize,
    circuit: &C,
    x_ab: &QuirkyPoint,
    challenger: &mut Ch,
) -> (out: (LincheckProof, LincheckClaim))
    requires
        prover_inputs_fit(z_packed@, m, k_log, k_skip, circuit, *x_ab),
        useful_bits <= pow2(k_log as nat),
    ensures
        ({
            let t = prover_transcript::<Ch, C>(
                old(challenger).state(),
                circuit,
                *x_ab,
                k_skip as nat,
                z_vector(z_packed@, k_log, useful_bits, *x_ab),
            );
            &&& out.0.rounds@ == t.messages
            &&& out.0.z_partial@ == t.z_partial
            &&& out.1.r_inner_skip == t.claim.r_inner_skip
            &&& out.1.r_inner_rest@ == t.claim.r_inner_rest
            &&& out.1.w == t.claim.w
            &&& final(challenger).state() == t.state
        }),
{
    let (proof_out, claim, _) = prove_padded_inner(
        z_packed,
        m,
        k_log,
        k_skip,
        useful_bits,
        circuit,
        x_ab,
        false,
        challenger,
    );
    (proof_out, claim)
}

/// Variant of [`prove_padded`] that also returns the **pre-sumcheck** z_vec
/// (`output[i_inner] = ẑ(i_inner, x_ab.x_outer)`, length `2^k_log`). The
/// downstream PCS reuses this vector to compute the AB-claim's ring-switch
/// values.
pub fn prove_padded_capture_z_vec<Ch: Challenger, C: LincheckCircuit>(
    z_packed: &[u8],
    m: usize,
    k_log: usize,
    k_skip: usize,
    useful_bits: usize,
    circuit: &C,
    x_ab: &QuirkyPoint,
    challenger: &mut Ch,
) -> (out: (LincheckProof, LincheckClaim, Vec<F128>))
    requires
        prover_inputs_fit(z_packed@, m, k_log, k_skip, circuit, *x_ab),
        useful_bits <= pow2(k_log as nat),
    ensures
        ({
            let z_vec = z_vector(z_packed@, k_log, useful_bits, *x_ab);
            let t = prover_transcript::<Ch, C>(
                old(challenger).state(),
                circuit,
                *x_ab,
                k_skip as nat,
                z_vec,
            );
            &&& out.0.rounds@ == t.messages
            &&& out.0.z_partial@ == t.z_partial
            &&& out.1.r_inner_skip == t.claim.r_inner_skip
            &&& out.1.r_inner_rest@ == t.claim.r_inner_rest
            &&& out.1.w == t.claim.w
            &&& out.2@ == z_vec
            &&& final(challenger).state() == t.state
        }),
{
    let (proof_out, claim, captured) = prove_padded_inner(
        z_packed,
        m,
        k_log,
        k_skip,
        useful_bits,
        circuit,
        x_ab,
        true,
        challenger,
    );
    (proof_out, claim, captured.unwrap())
}

/// The vector reversed.
fn reversed(v: &Vec<F128>) -> (out: Vec<F128>)
    ensures
        out@ == v@.reverse(),
{
    let n: usize = v.len();
    let mut out: Vec<F128> = Vec::with_capacity(n);
    let mut i: usize = 0;
    while i < n
        invariant
            i <= n,
            n == v@.len(),
            out@.len() == i,
            forall|q: int| 0 <= q < i ==> #[trigger] out@[q] == v@[n - 1 - q],
        decreases n - i,
    {
        out.push(v[n - 1 - i]);
        i = i + 1;
    }
    assert(out@ =~= v@.reverse());
    out
}

/// The opening of the protocol: the label, `α`, the batched vector and, with a
/// pinned wire, `β`.
fn open_protocol<Ch: Challenger, C: LincheckCircuit>(
    circuit: &C,
    eq_inner: &Vec<F128>,
    challenger: &mut Ch,
) -> (out: (F128, F128, Vec<F128>))
    requires
        circuit.wf(),
        pin_fits(circuit),
        eq_inner@.len() == circuit.side(),
    ensures
        ({
            let o = opening::<Ch, C>(old(challenger).state(), circuit, eq_inner@);
            &&& out.0 == o.alpha
            &&& out.1 == o.beta
            &&& out.2@ == o.comb
            &&& out.2@.len() == circuit.side()
            &&& final(challenger).state() == o.state
        }),
{
    let label: [u8; 17] = [
        0x66, 0x6c, 0x6f, 0x63, 0x6b, 0x2d, 0x6c, 0x69, 0x6e, 0x63, 0x68, 0x65, 0x63, 0x6b, 0x2d,
        0x76, 0x30,
    ];
    assert(label@ =~= lincheck_label());
    challenger.observe_label(&label);
    let alpha = challenger.sample_f128();
    let mut comb_vec = circuit.fold_alpha_batched(alpha, eq_inner);
    assert(comb_vec@ =~= comb_vector(circuit, alpha, eq_inner@));
    let mut beta = F128::zero();
    if let Some(col) = circuit.const_pin_col() {
        beta = challenger.sample_f128();
        comb_vec[col] = comb_vec[col] + beta;
    }
    (alpha, beta, comb_vec)
}

proof fn lemma_split_inner(k_log: nat, k_skip: nat)
    requires
        k_skip <= k_log,
    ensures
        pow2(k_skip) * pow2((k_log - k_skip) as nat) == pow2(k_log),
{
    lemma_pow2_adds(k_skip, (k_log - k_skip) as nat);
}

fn prove_padded_inner<Ch: Challenger, C: LincheckCircuit>(
    z_packed: &[u8],
    m: usize,
    k_log: usize,
    k_skip: usize,
    useful_bits: usize,
    circuit: &C,
    x_ab: &QuirkyPoint,
    capture_z_vec: bool,
    challenger: &mut Ch,
) -> (out: (LincheckProof, LincheckClaim, Option<Vec<F128>>))
    requires
        prover_inputs_fit(z_packed@, m, k_log, k_skip, circuit, *x_ab),
        useful_bits <= pow2(k_log as nat),
    ensures
        ({
            let z_vec = z_vector(z_packed@, k_log, useful_bits, *x_ab);
            let t = prover_transcript::<Ch, C>(
                old(challenger).state(),
                circuit,
                *x_ab,
                k_skip as nat,
                z_vec,
            );
            &&& out.0.rounds@ == t.messages
            &&& out.0.z_partial@ == t.z_partial
            &&& out.1.r_inner_skip == t.claim.r_inner_skip
            &&& out.1.r_inner_rest@ == t.claim.r_inner_rest
            &&& out.1.w == t.claim.w
            &&& capture_z_vec ==> (out.2 matches Some(v) && v@ == z_vec)
            &&& final(challenger).state() == t.state
        }),
{
    let ghost start = challenger.state();
    proof {
        crate::lincheck::fold::lemma_stripes(m as nat, k_log as nat);
        lemma_split_inner(k_log as nat, k_skip as nat);
    }
    let inner_rest_len: usize = k_log - k_skip;
    let ghost z0 = z_vector(z_packed@, k_log, useful_bits, *x_ab);
    let ghost table = quirky_table(x_ab.z_skip, x_ab.x_inner_rest@, k_skip as nat);
    let eq_inner = build_quirky_eq_table(x_ab.z_skip, &x_ab.x_inner_rest, k_skip);
    let ghost o = opening::<Ch, C>(start, circuit, table);
    // α, and β for a pinned wire: the same order as the verifier's.
    let (alpha, beta, mut comb_vec) = open_protocol(circuit, &eq_inner, challenger);
    // Partial fold of z at the shared outer half (length-k vector).
    let eq_x_outer = build_eq_table(&x_ab.x_outer);
    let mut z_vec = partial_fold_packed_z_fast_padded(z_packed, m, k_log, useful_bits, &eq_x_outer);
    let captured: Option<Vec<F128>> = if capture_z_vec {
        Some(z_vec.clone())
    } else {
        None
    };
    assert(captured matches Some(v) ==> v@ =~= z_vec@);
    // Multilinear product-sumcheck over the high `inner_rest_len` bits of `i`.
    // Each round binds the TOP remaining bit.
    let mut rounds: Vec<(F128, F128)> = Vec::with_capacity(inner_rest_len);
    let mut r_rounds: Vec<F128> = Vec::with_capacity(inner_rest_len);
    if inner_rest_len > 0 {
        proof {
            lemma_even_table(k_log as nat, 0);
        }
        // Round 0's message is the only standalone evaluation pass; every later
        // round's message falls out of binding the previous round.
        let (mut e1, mut einf) = sumcheck_round_eval_par(&comb_vec, &z_vec);
        let mut t: usize = 0;
        while t < inner_rest_len
            invariant
                t <= inner_rest_len,
                inner_rest_len <= k_log,
                comb_vec@.len() == pow2((k_log - t) as nat),
                z_vec@.len() == pow2((k_log - t) as nat),
                ({
                    let p = prover_rounds::<Ch>(o.state, o.comb, z0, t as nat);
                    &&& rounds@ == p.messages
                    &&& r_rounds@ == p.challenges
                    &&& comb_vec@ == p.comb
                    &&& z_vec@ == p.z
                    &&& challenger.state() == p.state
                }),
                t < inner_rest_len ==> (e1, einf) == round_message(comb_vec@, z_vec@),
            decreases inner_rest_len - t,
        {
            let ghost p = prover_rounds::<Ch>(o.state, o.comb, z0, t as nat);
            let ghost next = prover_rounds::<Ch>(o.state, o.comb, z0, (t + 1) as nat);
            challenger.observe_f128(e1);
            challenger.observe_f128(einf);
            let r = challenger.sample_f128();
            rounds.push((e1, einf));
            r_rounds.push(r);
            proof {
                lemma_even_table(k_log as nat, t as nat);
            }
            if t + 1 < inner_rest_len {
                proof {
                    lemma_even_table(k_log as nat, (t + 1) as nat);
                }
                let (ne1, neinf) = sumcheck_bind_both_and_eval_next(&mut comb_vec, &mut z_vec, r);
                e1 = ne1;
                einf = neinf;
            } else {
                sumcheck_bind_top_in_place_par(&mut comb_vec, r);
                sumcheck_bind_top_in_place_par(&mut z_vec, r);
            }
            proof {
                assert(next.comb == comb_vec@);
                assert(next.z == z_vec@);
            }
            t = t + 1;
        }
    }
    // Send `z_partial` (the post-sumcheck collapsed z_vec). Length 2^k_skip.
    let z_partial = z_vec;
    challenger.observe_f128_slice(&z_partial);
    // Sample a fresh z_skip AFTER observing z_partial.
    let r_inner_skip = challenger.sample_f128();
    let lambda = lagrange_weights_naive(k_skip, r_inner_skip);
    let w = inner_product(&lambda, &z_partial);
    // LSB-first: r_inner_rest[j] = r_rounds[inner_rest_len − 1 − j].
    let r_inner_rest = reversed(&r_rounds);
    (
        LincheckProof { rounds, z_partial },
        LincheckClaim { r_inner_skip, r_inner_rest, w },
        captured,
    )
}

proof fn lemma_even_table(k_log: nat, t: nat)
    ensures
        t < k_log ==> pow2((k_log - t) as nat) == 2 * pow2((k_log - t - 1) as nat),
        t < k_log ==> pow2((k_log - t) as nat) % 2 == 0,
        t + 1 < k_log ==> pow2((k_log - t) as nat) % 4 == 0,
{
    if t < k_log {
        lemma_pow2_unfold((k_log - t) as nat);
        if t + 1 < k_log {
            lemma_pow2_unfold((k_log - t - 1) as nat);
        }
    }
}

/// Verify a lincheck proof. Walks the challenger in lockstep with `prove`,
/// performs the consistency check against `v_a` and `v_b`, and derives the
/// output z claim.
pub fn verify<Ch: Challenger, C: LincheckCircuit>(
    m: usize,
    k_log: usize,
    k_skip: usize,
    circuit: &C,
    x_ab: &QuirkyPoint,
    v_a: F128,
    v_b: F128,
    proof_in: &LincheckProof,
    challenger: &mut Ch,
) -> (r: Result<LincheckClaim, VerifyError>)
    requires
        k_log <= m,
        pow2(k_log as nat) <= usize::MAX,
        circuit.wf(),
        shape_holds(
            m,
            k_log,
            k_skip,
            circuit,
            *x_ab,
            proof_in.rounds@,
            proof_in.z_partial@,
        ) ==> k_skip <= 8 && pin_fits(circuit),
    ensures
        ({
            let v = verdict::<Ch, C>(
                old(challenger).state(),
                m,
                k_log,
                k_skip,
                circuit,
                *x_ab,
                v_a,
                v_b,
                proof_in.rounds@,
                proof_in.z_partial@,
            );
            &&& final(challenger).state() == v.state
            &&& r is Ok == v.result is Ok
            &&& r matches Ok(c) ==> {
                &&& c.r_inner_skip == v.result->Ok_0.r_inner_skip
                &&& c.r_inner_rest@ == v.result->Ok_0.r_inner_rest
                &&& c.w == v.result->Ok_0.w
            }
            &&& r matches Err(e) ==> e == v.result->Err_0
        }),
{
    let ghost start = challenger.state();
    let k: usize = pow2_usize(k_log);
    let n_log: usize = m - k_log;
    if k_skip > k_log {
        return Err(VerifyError::KSkipExceedsKLog { k_skip, k_log });
    }
    let inner_rest_len: usize = k_log - k_skip;
    proof {
        lemma_split_inner(k_log as nat, k_skip as nat);
        if k_skip < k_log {
            lemma_pow2_strictly_increases(k_skip as nat, k_log as nat);
        }
    }
    let n_skip: usize = pow2_usize(k_skip);
    if x_ab.x_inner_rest.len() != inner_rest_len {
        return Err(
            VerifyError::BadInnerRestLength {
                which: "x_ab",
                expected: inner_rest_len,
                got: x_ab.x_inner_rest.len(),
            },
        );
    }
    if x_ab.x_outer.len() != n_log {
        return Err(
            VerifyError::BadOuterLength {
                which: "x_ab",
                expected: n_log,
                got: x_ab.x_outer.len(),
            },
        );
    }
    let n_cols: usize = circuit.n_cols();
    if n_cols != k {
        return Err(
            VerifyError::BadMatrixShape {
                which: "circuit",
                expected: k,
                got_rows: k,
                got_cols: n_cols,
            },
        );
    }
    if proof_in.rounds.len() != inner_rest_len {
        return Err(
            VerifyError::BadVectorLength {
                which: "rounds",
                expected: inner_rest_len,
                got: proof_in.rounds.len(),
            },
        );
    }
    if proof_in.z_partial.len() != n_skip {
        return Err(
            VerifyError::BadVectorLength {
                which: "z_partial",
                expected: n_skip,
                got: proof_in.z_partial.len(),
            },
        );
    }
    let ghost table = quirky_table(x_ab.z_skip, x_ab.x_inner_rest@, k_skip as nat);
    let eq_inner = build_quirky_eq_table(x_ab.z_skip, &x_ab.x_inner_rest, k_skip);
    let ghost o = opening::<Ch, C>(start, circuit, table);
    let (alpha, beta, mut comb_vec) = open_protocol(circuit, &eq_inner, challenger);
    let mut target = alpha * v_a + v_b;
    if circuit.const_pin_col().is_some() {
        target = target + beta;
    }
    // Replay the product-sumcheck, folding comb_vec in lockstep.
    let mut running = target;
    let mut r_rounds: Vec<F128> = Vec::with_capacity(inner_rest_len);
    let mut t: usize = 0;
    while t < inner_rest_len
        invariant
            t <= inner_rest_len,
            inner_rest_len == k_log - k_skip,
            proof_in.rounds@.len() == inner_rest_len,
            comb_vec@.len() == pow2((k_log - t) as nat),
            ({
                let v = verifier_rounds::<Ch>(o.state, o.comb, target, proof_in.rounds@, t as nat);
                &&& running == v.running
                &&& r_rounds@ == v.challenges
                &&& comb_vec@ == v.comb
                &&& challenger.state() == v.state
            }),
        decreases inner_rest_len - t,
    {
        let ghost next = verifier_rounds::<Ch>(
            o.state,
            o.comb,
            target,
            proof_in.rounds@,
            (t + 1) as nat,
        );
        let (e1, einf) = proof_in.rounds[t];
        challenger.observe_f128(e1);
        challenger.observe_f128(einf);
        let r = challenger.sample_f128();
        // q(0) = claim + q(1) in char 2; q(X) = einf·X² + c1·X + e0.
        let e0 = running + e1;
        let c1 = e0 + e1 + einf;
        running = einf * r * r + c1 * r + e0;
        proof {
            lemma_even_table(k_log as nat, t as nat);
        }
        sumcheck_bind_top_in_place_par(&mut comb_vec, r);
        r_rounds.push(r);
        proof {
            assert(next.comb == comb_vec@);
        }
        t = t + 1;
    }
    // Observe z_partial AFTER the sumcheck rounds (matches prover order).
    challenger.observe_f128_slice(&proof_in.z_partial);
    // Final consistency: Σ comb_partial[i_skip] · z_partial[i_skip] must equal
    // the running claim. Ties z_partial to the upstream v_a, v_b.
    let final_sum = inner_product(&comb_vec, &proof_in.z_partial);
    if running != final_sum {
        return Err(VerifyError::ConsistencyFailed { which: "sumcheck-final" });
    }
    let r_inner_skip = challenger.sample_f128();
    let lambda = lagrange_weights_naive(k_skip, r_inner_skip);
    let w = inner_product(&lambda, &proof_in.z_partial);
    let r_inner_rest = reversed(&r_rounds);
    Ok(LincheckClaim { r_inner_skip, r_inner_rest, w })
}

} // verus!
