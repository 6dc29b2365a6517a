//! The verifier of the permutation check.
use vstd::arithmetic::power2::{lemma2_to64, lemma_pow2_strictly_increases, pow2};
use vstd::prelude::*;
use crate::challenger::Challenger;
use crate::field::F128;
use crate::ntt::additive_ntt_f128::AdditiveNttF128;
use crate::pcs;
use crate::pcs::combine::{
    batch_challenges, batch_label, claim_tables, claim_targets, combined, total, BatchChallenges,
};
use crate::pcs::commit::Commitment;
use crate::pcs::open::{is_standard, BatchOpening};
use crate::pcs::pack::LOG_PACKING;
use crate::pcs::residual::{backend_verdict, verify_opening_batch_ligerito_mixed, BackendClaim};
use crate::pcs::ring_switch::batch::views;
use crate::pcs::verify::{
    mixed_verdict, proof_messages, ref_tables, ref_values, verify_opening_batch_mixed,
    PackedDirectClaimRef,
};
use crate::permutation::tables::{
    observe_evals, s_id_basis, s_id_eval, tag_value, v_open_points,
};
use crate::permutation::{
    after_values, evals, params_of, pcs_params, perm_challenges, perm_label,
    recursion_is_feasible, same_claim, v_challenges, v_points, v_table, v_tables, v_target,
    v_values, Mix, PermutationClaim, PermutationHead, PermutationProof, Verified, VerifyError,
    LIGERITO_MIN_VARS,
};
use crate::zerocheck::multilinear::mle;

verus! {

/// The value at `ρ` of the round polynomial `G` with `claim = (1+r)·G(0) +
/// r·G(1)` and the given `G(1)` and leading coefficient.
pub open spec fn round_claim(claim: F128, r: F128, g1: F128, g_inf: F128, rho: F128) -> F128 {
    let g0 = (claim + r * g1) * (F128::one() + r).inverse();
    g0 * (F128::one() + rho) + g1 * rho + g_inf * rho * (F128::one() + rho)
}

/// The verifier after some rounds.
pub struct CheckedPerm<S> {
    pub rho: Seq<F128>,
    pub claim: F128,
    pub state: S,
}

pub open spec fn checked_rounds<Ch: Challenger>(
    s: Ch::State,
    rounds: Seq<(F128, F128)>,
    r: Seq<F128>,
    t: nat,
) -> CheckedPerm<Ch::State>
    decreases t,
{
    if t == 0 {
        CheckedPerm { rho: Seq::empty(), claim: F128::zero(), state: s }
    } else {
        let p = checked_rounds::<Ch>(s, rounds, r, (t - 1) as nat);
        let (g1, g_inf) = rounds[t - 1];
        let s1 = Ch::after_f128(Ch::after_f128(p.state, g1), g_inf);
        let rho_i = Ch::challenge(s1);
        CheckedPerm {
            rho: p.rho.push(rho_i),
            claim: round_claim(p.claim, r[t - 1], g1, g_inf, rho_i),
            state: Ch::after_sample(s1),
        }
    }
}

/// `F(ρ)` from the evaluations of the proof.
pub open spec fn final_value(out: PermutationHead, m: Mix, rho: Seq<F128>) -> F128 {
    let p = out.f_eval + m.beta * tag_value(rho) + m.gamma;
    let q = out.g_eval + m.beta * out.s_sigma_eval + m.gamma;
    (out.v_0x * q + p) + m.alpha * (out.v_1x + out.v_x0 * out.v_x1)
}

/// What the verifier answers: the point that the evaluations are claimed at, or
/// what is wrong. For a proof with a recursive opening this is the answer before the
/// backend's.
pub struct PermVerdict<S> {
    pub result: Result<Seq<F128>, VerifyError>,
    pub state: S,
}

pub open spec fn perm_verdict<Ch: Challenger, L>(
    s: Ch::State,
    mu: nat,
    out: PermutationProof<L>,
    ntt: &AdditiveNttF128,
) -> PermVerdict<Ch::State> {
    let h = out.head();
    let pc = perm_challenges::<Ch>(s, out.v_root@, out.claimed_product, mu);
    let p = checked_rounds::<Ch>(pc.state, out.rounds@, pc.r, mu);
    if p.claim != final_value(h, pc.mix, p.rho) {
        PermVerdict { result: Err(VerifyError::SumcheckFinalFailed), state: p.state }
    } else if out.claimed_product != F128::one() {
        PermVerdict { result: Err(VerifyError::RootNotOne), state: p.state }
    } else {
        v_verdict::<Ch, L>(after_values::<Ch>(p.state, evals(h)), mu, out, p.rho, ntt)
    }
}

/// The answer on the opening of `v`: the backend must be the one for its size.
pub open spec fn v_verdict<Ch: Challenger, L>(
    s: Ch::State,
    mu: nat,
    out: PermutationProof<L>,
    rho: Seq<F128>,
    ntt: &AdditiveNttF128,
) -> PermVerdict<Ch::State> {
    let h = out.head();
    if recursion_is_feasible(mu + 1) != (out.v_open is Ligerito) {
        PermVerdict { result: Err(VerifyError::BackendMismatch), state: s }
    } else if recursion_is_feasible(mu + 1) {
        PermVerdict { result: Ok(rho), state: v_challenges::<Ch>(s, h).state }
    } else {
        let v = mixed_verdict::<Ch>(
            s,
            Commitment { root: out.v_root, params: params_of(mu + 1) },
            Seq::empty(),
            Seq::empty(),
            Seq::empty(),
            v_tables(rho),
            v_values(h),
            out.v_open->BaseFold_0,
            ntt,
        );
        PermVerdict {
            result: match v.result {
                Err(e) => Err(VerifyError::PcsOpen(e)),
                Ok(u) => Ok(rho),
            },
            state: v.state,
        }
    }
}

/// The claim that is left to the backend is the one on `v`.
pub open spec fn is_v_claim<S>(
    backend: BackendClaim,
    bc: BatchChallenges<S>,
    h: PermutationHead,
    rho: Seq<F128>,
) -> bool {
    &&& backend.log_n == rho.len() + 1
    &&& backend.reduced.eq_r_dprimes@.len() == 0
    &&& backend.reduced.gammas_rs@.len() == 0
    &&& backend.reduced.gammas_pd@.len() == 5
    &&& backend.reduced.target_combined == v_target(bc, h)
    &&& forall|ch: Seq<F128>|
        ch.len() == backend.log_n ==> #[trigger] backend.reduced.value_at(
            Seq::empty(),
            v_tables(rho),
            ch,
        ) == mle(v_table(bc, rho), ch)
}

/// An opening of `v` alone has no ring-switching messages.
pub open spec fn opens_directly<L>(open: BatchOpening<L>) -> bool {
    match open {
        BatchOpening::BaseFold(p) => p.ring_switches@.len() == 0,
        BatchOpening::Ligerito(p) => p.ring_switches@.len() == 0,
    }
}

/// The proof gets as far as the opening of `v`: its sumcheck ends right, the claimed product
/// is one, and the opening is of the backend for the size of `v`.
pub open spec fn reaches_opening<Ch: Challenger, L>(
    s: Ch::State,
    mu: nat,
    out: PermutationProof<L>,
) -> bool {
    let pc = perm_challenges::<Ch>(s, out.v_root@, out.claimed_product, mu);
    let p = checked_rounds::<Ch>(pc.state, out.rounds@, pc.r, mu);
    &&& p.claim == final_value(out.head(), pc.mix, p.rho)
    &&& out.claimed_product == F128::one()
    &&& recursion_is_feasible(mu + 1) == (out.v_open is Ligerito)
}

/// Verify the opening of `v`: pick the same backend the prover must have used
/// (deterministic in the polynomial's size), require the proof's backend to match, and run
/// the verifier. The claim that is left to a recursive backend is returned.
fn verify_adaptive<Ch: Challenger, L>(
    commitment: &Commitment,
    claims: &Vec<PackedDirectClaimRef>,
    open: &BatchOpening<L>,
    ch: &mut Ch,
) -> (r: Result<Option<BackendClaim>, VerifyError>)
    requires
        commitment.params.m >= LOG_PACKING,
        !recursion_is_feasible(commitment.params.msg_log()) ==> commitment.params.wf(),
        commitment.params.log_inv_rate == 1 || commitment.params.log_inv_rate == 2,
        claims@.len() > 0,
        recursion_is_feasible(commitment.params.msg_log()) == (*open is Ligerito)
            ==> opens_directly(*open),
        forall|k: int|
            0 <= k < claims@.len() ==> (#[trigger] claims@[k]).point@.len()
                == commitment.params.msg_log(),
    ensures
        recursion_is_feasible(commitment.params.msg_log()) != (*open is Ligerito) ==> {
            &&& final(ch).state() == old(ch).state()
            &&& r matches Err(e) && e == VerifyError::BackendMismatch
        },
        recursion_is_feasible(commitment.params.msg_log()) && *open is Ligerito ==> {
            let bc = batch_challenges::<Ch>(
                Ch::after_label(old(ch).state(), batch_label()),
                Seq::empty(),
                ref_values(claims@),
            );
            &&& final(ch).state() == bc.state
            &&& r matches Ok(Some(o)) && {
                &&& o.log_n == commitment.params.msg_log()
                &&& o.reduced.fits(Seq::empty(), claims@, o.log_n as nat)
                &&& o.reduced.target_combined == total(
                    claim_targets(bc, Seq::empty(), ref_values(claims@)),
                )
                &&& forall|x: Seq<F128>|
                    x.len() == o.log_n ==> #[trigger] o.reduced.value_at(
                        Seq::empty(),
                        ref_tables(claims@),
                        x,
                    ) == mle(
                        combined(
                            claim_tables(bc, Seq::empty(), ref_tables(claims@)),
                            pow2(x.len()),
                        ),
                        x,
                    )
            }
        },
        !recursion_is_feasible(commitment.params.msg_log()) && *open is BaseFold ==> forall|
            ntt: AdditiveNttF128,
        | #[trigger]
            is_standard(ntt, commitment.params.code_dim()) ==> {
                let v = mixed_verdict::<Ch>(
                    old(ch).state(),
                    *commitment,
                    Seq::empty(),
                    Seq::empty(),
                    Seq::empty(),
                    ref_tables(claims@),
                    ref_values(claims@),
                    open->BaseFold_0,
                    &ntt,
                );
                &&& final(ch).state() == v.state
                &&& match v.result {
                    Err(e) => r == Err::<Option<BackendClaim>, VerifyError>(
                        VerifyError::PcsOpen(e),
                    ),
                    Ok(u) => r == Ok::<Option<BackendClaim>, VerifyError>(None),
                }
            },
{
    let no_values: [F128; 0] = [];
    let no_points: [&[F128]; 0] = [];
    proof {
        assert(no_values@ =~= Seq::<F128>::empty());
        assert(views(no_points@) =~= Seq::<Seq<F128>>::empty());
    }
    let feasible: bool = commitment.params.log_msg_len() >= LIGERITO_MIN_VARS;
    match open {
        BatchOpening::BaseFold(p) => {
            if feasible {
                return Err(VerifyError::BackendMismatch);
            }
            match verify_opening_batch_mixed(
                commitment,
                &no_values,
                &no_values,
                &no_points,
                claims,
                p,
                ch,
            ) {
                Err(e) => Err(VerifyError::PcsOpen(e)),
                Ok(u) => Ok(None),
            }
        },
        BatchOpening::Ligerito(p) => {
            if !feasible {
                return Err(VerifyError::BackendMismatch);
            }
            assert(proof_messages(p.ring_switches@) =~= Seq::<Seq<F128>>::empty());
            match verify_opening_batch_ligerito_mixed(
                commitment,
                &no_values,
                &no_values,
                &no_points,
                claims,
                p,
                ch,
            ) {
                Err(e) => Err(VerifyError::PcsOpen(e)),
                Ok(backend) => Ok(Some(backend)),
            }
        },
    }
}

/// The verifier's answer, once the backend has answered on the claim on `v`.
pub fn finish(claim: PermutationClaim, accepted: bool) -> (r: Result<PermutationClaim, VerifyError>)
    ensures
        r == (if accepted {
            Ok::<PermutationClaim, VerifyError>(claim)
        } else {
            Err(
                VerifyError::PcsOpen(
                    pcs::verify::VerifyError::BaseFold(
                        pcs::basefold::VerifyError::InvalidProofShape,
                    ),
                ),
            )
        }),
{
    match backend_verdict(accepted) {
        Ok(u) => Ok(claim),
        Err(e) => Err(VerifyError::PcsOpen(e)),
    }
}

/// Verify a permutation proof for `N = 2^mu`. The caller must have absorbed the
/// same `f, g, σ` binding into `ch` as the prover did. Where `v` is opened with the
/// recursive backend, the claim on it is handed over; [`finish`] takes the backend's answer.
pub fn verify<Ch: Challenger, L>(mu: usize, proof_in: &PermutationProof<L>, ch: &mut Ch) -> (r: Result<
    Verified,
    VerifyError,
>)
    requires
        proof_in.rounds@.len() == mu,
        mu <= 128,
        reaches_opening::<Ch, L>(old(ch).state(), mu as nat, *proof_in) ==> opens_directly(
            proof_in.v_open,
        ),
    ensures
        forall|ntt: AdditiveNttF128|
            #![trigger perm_verdict::<Ch, L>(old(ch).state(), mu as nat, *proof_in, &ntt)]
            recursion_is_feasible(mu as nat + 1) || is_standard(ntt, mu as nat + 1) ==> {
                let v = perm_verdict::<Ch, L>(old(ch).state(), mu as nat, *proof_in, &ntt);
                &&& final(ch).state() == v.state
                &&& match r {
                    Err(e) => v.result == Err::<Seq<F128>, VerifyError>(e),
                    Ok(Verified::Done(claim)) => {
                        &&& !recursion_is_feasible(mu as nat + 1)
                        &&& v.result is Ok
                        &&& same_claim(claim, v.result->Ok_0, proof_in.head())
                    },
                    Ok(Verified::Backend { claim, points, backend }) => {
                        let rho = v.result->Ok_0;
                        let h = proof_in.head();
                        let pc = perm_challenges::<Ch>(
                            old(ch).state(),
                            h.v_root@,
                            h.claimed_product,
                            mu as nat,
                        );
                        let p = checked_rounds::<Ch>(pc.state, h.rounds@, pc.r, mu as nat);
                        let bc = v_challenges::<Ch>(after_values::<Ch>(p.state, evals(h)), h);
                        &&& recursion_is_feasible(mu as nat + 1)
                        &&& v.result is Ok
                        &&& same_claim(claim, rho, h)
                        &&& forall|k: int|
                            0 <= k < 5 ==> (#[trigger] points@[k])@ == v_points(rho)[k]
                        &&& is_v_claim(backend, bc, h, rho)
                    },
                }
            },
{
    let ghost s = ch.state();
    proof {
        lemma2_to64();
        if mu < 7 {
            lemma_pow2_strictly_increases(mu as nat + 8, 16);
        }
    }
    let label: [u8; 13] = [
        0x66, 0x6c, 0x6f, 0x63, 0x6b, 0x2d, 0x70, 0x65, 0x72, 0x6d, 0x2d, 0x76, 0x30,
    ];
    assert(label@ =~= perm_label());
    ch.observe_label(&label);
    let beta = ch.sample_f128();
    let gamma = ch.sample_f128();
    // Rebuild the `v` commitment from the proof root + params derived from μ, and
    // observe the root at the same transcript position the prover committed.
    let commitment_v = Commitment { root: proof_in.v_root, params: pcs_params(mu + 1) };
    ch.observe_bytes(&commitment_v.root);
    ch.observe_f128(proof_in.claimed_product);
    let alpha = ch.sample_f128();
    let r = ch.sample_f128_vec(mu);
    let ghost pc = perm_challenges::<Ch>(
        s,
        proof_in.v_root@,
        proof_in.claimed_product,
        mu as nat,
    );
    assert(r@ == pc.r);
    // eq-trick sumcheck chain: the running claim is the bare inner value, ending
    // at F(ρ). The initial zerocheck target is 0.
    let mut c_running = F128::zero();
    let mut rho: Vec<F128> = Vec::with_capacity(mu);
    let mut i: usize = 0;
    while i < mu
        invariant
            i <= mu,
            mu == r@.len(),
            mu == proof_in.rounds@.len(),
            r@ == pc.r,
            rho@.len() == i,
            ({
                let p = checked_rounds::<Ch>(pc.state, proof_in.rounds@, pc.r, i as nat);
                &&& rho@ == p.rho
                &&& c_running == p.claim
                &&& ch.state() == p.state
            }),
        decreases mu - i,
    {
        let (g1, g_inf) = proof_in.rounds[i];
        let r_eq = r[i];
        let one_plus_r_eq = F128::one() + r_eq;
        // G(0) from consistency c_running = (1+r_eq)·G(0) + r_eq·G(1).
        let g0 = (c_running + r_eq * g1) * one_plus_r_eq.inv();
        ch.observe_f128(g1);
        ch.observe_f128(g_inf);
        let rho_i = ch.sample_f128();
        rho.push(rho_i);
        let one_plus_rho = F128::one() + rho_i;
        // G(ρ) = G(0)(1+ρ) + G(1)ρ + G(∞)ρ(1+ρ).
        c_running = g0 * one_plus_rho + g1 * rho_i + g_inf * rho_i * one_plus_rho;
        i = i + 1;
    }
    let ghost p = checked_rounds::<Ch>(pc.state, proof_in.rounds@, pc.r, mu as nat);
    // Final consistency: c_running must equal F(ρ) (bare, no eq factor).
    // Relation A uses `v(0,ρ)` (= v_0x) as the leaf value; there is no separate h.
    let basis = s_id_basis(mu);
    let s_id_rho = s_id_eval(&basis, &rho);
    let p_rho = proof_in.f_eval + beta * s_id_rho + gamma;
    let q_rho = proof_in.g_eval + beta * proof_in.s_sigma_eval + gamma;
    let f_a = proof_in.v_0x * q_rho + p_rho;
    let f_b = proof_in.v_1x + proof_in.v_x0 * proof_in.v_x1;
    let expected = f_a + alpha * f_b;
    if c_running != expected {
        return Err(VerifyError::SumcheckFinalFailed);
    }
    if proof_in.claimed_product != F128::one() {
        return Err(VerifyError::RootNotOne);
    }
    // Bind the evals, then verify the PCS opening of `v` at the reduction point —
    // same transcript order as the prover.
    let seven: [F128; 7] = [
        proof_in.f_eval,
        proof_in.g_eval,
        proof_in.s_sigma_eval,
        proof_in.v_x0,
        proof_in.v_x1,
        proof_in.v_1x,
        proof_in.v_0x,
    ];
    assert(seven@ =~= evals(proof_in.head()));
    observe_evals(ch, &seven);
    let points = v_open_points(&rho);
    let values: [F128; 5] = [
        proof_in.v_x0,
        proof_in.v_x1,
        proof_in.v_1x,
        proof_in.v_0x,
        proof_in.claimed_product,
    ];
    assert(values@ =~= v_values(proof_in.head()));
    let mut claims: Vec<PackedDirectClaimRef> = Vec::with_capacity(5);
    let mut k: usize = 0;
    while k < 5
        invariant
            k <= 5,
            rho@.len() == mu,
            forall|q: int| 0 <= q < 5 ==> (#[trigger] points@[q])@ == v_points(rho@)[q],
            claims@.len() == k,
            forall|q: int|
                0 <= q < k ==> {
                    &&& (#[trigger] claims@[q]).point@ == v_points(rho@)[q]
                    &&& claims@[q].value == values@[q]
                    &&& claims@[q].point@.len() == mu + 1
                },
        decreases 5 - k,
    {
        assert(points@[k as int]@ == v_points(rho@)[k as int]);
        claims.push(PackedDirectClaimRef { point: &points[k], value: values[k] });
        k = k + 1;
    }
    proof {
        assert(ref_tables(claims@) =~= v_tables(p.rho));
        assert(ref_values(claims@) =~= v_values(proof_in.head()));
    }
    let backend = match verify_adaptive(&commitment_v, &claims, &proof_in.v_open, ch) {
        Err(e) => {
            return Err(e);
        },
        Ok(o) => o,
    };
    let claim = PermutationClaim {
        rho,
        f_eval: proof_in.f_eval,
        g_eval: proof_in.g_eval,
        s_sigma_eval: proof_in.s_sigma_eval,
        v_x0: proof_in.v_x0,
        v_x1: proof_in.v_x1,
        v_1x: proof_in.v_1x,
        v_0x: proof_in.v_0x,
    };
    match backend {
        None => Ok(Verified::Done(claim)),
        Some(backend) => Ok(Verified::Backend { claim, points, backend }),
    }
}

} // verus!
