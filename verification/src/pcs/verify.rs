//! Verifying openings.
use vstd::arithmetic::power2::pow2;
use vstd::prelude::*;
use vstd::slice::slice_subrange;
use crate::algebra::{lemma_sum_ext, lemma_sum_scale, lemma_sum_swap, sum};
use crate::challenger::Challenger;
use crate::field::gf2_128::{lemma_mul_associates, lemma_mul_commutes};
use crate::field::F128;
use crate::ntt::additive_ntt_f128::AdditiveNttF128;
use crate::pcs::basefold;
use crate::pcs::basefold::check::{proof_verdict, rate_is_known, reaches_queries, same_result};
use crate::pcs::basefold::laws::lemma_verdict_depends_on_table;
use crate::pcs::basefold::BaseFoldProof;
use crate::pcs::combine::{
    batch_challenges, batch_label, claim_tables, claim_targets, combined, entry_of, observe_values,
    total, BatchChallenges,
};
use crate::pcs::commit::{lemma_code_sizes, Commitment, PcsParams};
use crate::pcs::open::{is_standard, open_label, BatchOpeningProof, OpeningProof};
use crate::pcs::ring_switch;
use crate::pcs::ring_switch::batch::{scaled, switched_state, views};
use crate::pcs::ring_switch::laws::lemma_scaled_weights;
use crate::pcs::ring_switch::{
    after_switch, eval_rs_eq, switch_error, switch_point, switched_claim, switched_table, tail,
    RingSwitchProof,
};
use crate::zerocheck::multilinear::{dot, eq_eval, eq_table, mle};

verus! {

#[derive(Clone, Copy, Debug, PartialEq, Eq)]
pub enum VerifyError {
    RingSwitch(ring_switch::VerifyError),
    BaseFold(basefold::VerifyError),
    /// BaseFold's `final_b` doesn't match the transparent multilinear's
    /// evaluation at the sampled challenges. Indicates the prover's BaseFold
    /// final value is inconsistent with `rs_eq_ind`.
    FinalBMismatch,
}

/// Verifier reference to a packed-direct claim: the multilinear point at
/// which `ẑ_packed` was claimed equal to `value`. The verifier owns the data
/// (it appears in the public statement of whatever produced the claim).
#[derive(Clone, Copy, Debug)]
pub struct PackedDirectClaimRef<'a> {
    pub point: &'a [F128],
    pub value: F128,
}

// ---------------------------------------------------------------------------
// The verdicts
// ---------------------------------------------------------------------------

/// What a verifier answers, and the state that it leaves the challenger in.
pub struct OpeningVerdict<S> {
    pub result: Result<(), VerifyError>,
    pub state: S,
}

/// A result that must be of `n` challenges.
pub open spec fn of_rounds(
    r: Result<Seq<F128>, basefold::VerifyError>,
    n: nat,
) -> Result<Seq<F128>, basefold::VerifyError> {
    match r {
        Ok(ch) => if ch.len() == n {
            Ok(ch)
        } else {
            Err(basefold::VerifyError::InvalidProofShape)
        },
        Err(e) => Err(e),
    }
}

/// The verdict on a BaseFold proof that the inner product of the committed
/// message and the table `b` is `target`.
pub open spec fn table_verdict<Ch: Challenger>(
    s: Ch::State,
    target: F128,
    b: Seq<F128>,
    out: BaseFoldProof,
    root: Seq<u8>,
    params: PcsParams,
    ntt: &AdditiveNttF128,
) -> OpeningVerdict<Ch::State> {
    let v = proof_verdict::<Ch>(
        s,
        target,
        out,
        root,
        ntt,
        params.log_inv_rate as nat,
        params.log_batch_size as nat,
    );
    OpeningVerdict {
        result: match of_rounds(v.result, params.msg_log()) {
            Err(e) => Err(VerifyError::BaseFold(e)),
            Ok(ch) => if mle(b, ch) != out.final_b {
                Err(VerifyError::FinalBMismatch)
            } else {
                Ok(())
            },
        },
        state: v.state,
    }
}

/// The verdict on an opening at one point.
pub open spec fn opening_verdict<Ch: Challenger>(
    s: Ch::State,
    commitment: Commitment,
    claim: F128,
    z_skip: F128,
    x_outer: Seq<F128>,
    out: OpeningProof,
    ntt: &AdditiveNttF128,
) -> OpeningVerdict<Ch::State> {
    let s0 = Ch::after_label(s, open_label());
    let message = out.ring_switch.s_hat_v@;
    match switch_error(message, claim, z_skip, x_outer) {
        Some(e) => OpeningVerdict { result: Err(VerifyError::RingSwitch(e)), state: s0 },
        None => {
            let w = eq_table(switch_point::<Ch>(s0, message));
            table_verdict::<Ch>(
                after_switch::<Ch>(s0, message),
                switched_claim(message, w),
                switched_table(eq_table(tail(x_outer)), w),
                out.basefold,
                commitment.root@,
                commitment.params,
                ntt,
            )
        },
    }
}

/// The first claim from `i` on whose message is wrong, and what is wrong.
pub open spec fn first_switch_error(
    messages: Seq<Seq<F128>>,
    claims: Seq<F128>,
    z_skips: Seq<F128>,
    xs: Seq<Seq<F128>>,
    i: nat,
) -> Option<(nat, ring_switch::VerifyError)>
    decreases messages.len() - i,
{
    if i >= messages.len() {
        None
    } else {
        match switch_error(messages[i as int], claims[i as int], z_skips[i as int], xs[i as int]) {
            Some(e) => Some((i, e)),
            None => first_switch_error(messages, claims, z_skips, xs, i + 1),
        }
    }
}

/// The messages of a batched proof.
pub open spec fn proof_messages(ring_switches: Seq<RingSwitchProof>) -> Seq<Seq<F128>> {
    Seq::new(ring_switches.len(), |i: int| ring_switches[i].s_hat_v@)
}

/// The tables of packed-direct claims.
pub open spec fn ref_tables(pd: Seq<PackedDirectClaimRef>) -> Seq<Seq<F128>> {
    Seq::new(pd.len(), |k: int| eq_table(pd[k].point@))
}

/// The values of packed-direct claims.
pub open spec fn ref_values(pd: Seq<PackedDirectClaimRef>) -> Seq<F128> {
    Seq::new(pd.len(), |k: int| pd[k].value)
}

/// The verdict on a mixed batch.
pub open spec fn mixed_verdict<Ch: Challenger>(
    s: Ch::State,
    commitment: Commitment,
    claims: Seq<F128>,
    z_skips: Seq<F128>,
    xs: Seq<Seq<F128>>,
    tables: Seq<Seq<F128>>,
    values: Seq<F128>,
    out: BatchOpeningProof,
    ntt: &AdditiveNttF128,
) -> OpeningVerdict<Ch::State> {
    let s0 = Ch::after_label(s, batch_label());
    let messages = proof_messages(out.ring_switches@);
    match first_switch_error(messages, claims, z_skips, xs, 0) {
        Some((i, e)) => OpeningVerdict {
            result: Err(VerifyError::RingSwitch(e)),
            state: switched_state::<Ch>(s0, messages, i),
        },
        None => {
            let bc = batch_challenges::<Ch>(s0, messages, values);
            table_verdict::<Ch>(
                bc.state,
                total(claim_targets(bc, messages, values)),
                combined(claim_tables(bc, xs, tables), pow2(commitment.params.msg_log())),
                out.basefold,
                commitment.root@,
                commitment.params,
                ntt,
            )
        },
    }
}

/// The verdict is the one on the value of the table, which is looked at last.
pub open spec fn compares_tables(result: Result<(), VerifyError>) -> bool {
    result is Ok || result == Err::<(), VerifyError>(VerifyError::FinalBMismatch)
}

/// The points have as many coordinates as the packed witness has variables, those of
/// ring-switched claims one more.
pub open spec fn points_fit(
    xs: Seq<Seq<F128>>,
    pd: Seq<PackedDirectClaimRef>,
    n: nat,
) -> bool {
    &&& forall|i: int| 0 <= i < xs.len() ==> (#[trigger] xs[i]).len() == n + 1
    &&& forall|k: int| 0 <= k < pd.len() ==> (#[trigger] pd[k]).point@.len() == n
}

// ---------------------------------------------------------------------------
// Values of combined tables
// ---------------------------------------------------------------------------

pub open spec fn dot_of(a: Seq<F128>, tables: Seq<Seq<F128>>) -> spec_fn(int) -> F128 {
    |k: int| dot(a, tables[k])
}

/// The inner product with a sum of tables.
pub proof fn lemma_combined_dot(a: Seq<F128>, tables: Seq<Seq<F128>>)
    ensures
        dot(a, combined(tables, a.len())) == sum(tables.len(), dot_of(a, tables)),
{
    let n = a.len();
    let m = tables.len();
    let c = combined(tables, n);
    let t = |j: int, k: int| a[j] * tables[k][j];
    let f = |j: int| a[j] * c[j];
    let rows = |j: int| sum(m, |k: int| t(j, k));
    let cols = |k: int| sum(n, |j: int| t(j, k));
    assert forall|j: int| 0 <= j < n implies #[trigger] f(j) == rows(j) by {
        let e = entry_of(tables, j);
        lemma_sum_scale(m, a[j], e);
        lemma_sum_ext(m, |k: int| a[j] * e(k), |k: int| t(j, k));
    }
    lemma_sum_ext(n, f, rows);
    lemma_sum_swap(n, m, t);
    let d = dot_of(a, tables);
    assert forall|k: int| 0 <= k < m implies #[trigger] d(k) == cols(k) by {
        lemma_sum_ext(n, |j: int| a[j] * tables[k][j], |j: int| t(j, k));
    }
    lemma_sum_ext(m, d, cols);
}

/// The inner product is symmetric.
pub proof fn lemma_dot_commutes(a: Seq<F128>, b: Seq<F128>)
    requires
        a.len() == b.len(),
    ensures
        dot(a, b) == dot(b, a),
{
    let f = |i: int| a[i] * b[i];
    let g = |i: int| b[i] * a[i];
    assert forall|i: int| 0 <= i < a.len() implies #[trigger] f(i) == g(i) by {
        lemma_mul_commutes(a[i], b[i]);
    }
    lemma_sum_ext(a.len(), f, g);
}

/// A scaled table scales the inner product.
pub proof fn lemma_scaled_dot(a: Seq<F128>, b: Seq<F128>, g: F128)
    requires
        a.len() == b.len(),
    ensures
        dot(a, scaled(b, g)) == g * dot(a, b),
{
    let f = |i: int| a[i] * b[i];
    lemma_sum_scale(a.len(), g, f);
    let sb = scaled(b, g);
    let h = |i: int| a[i] * sb[i];
    let k = |i: int| g * f(i);
    assert forall|i: int| 0 <= i < a.len() implies #[trigger] h(i) == k(i) by {
        lemma_mul_associates(a[i], g, b[i]);
        lemma_mul_commutes(a[i], g);
        lemma_mul_associates(g, a[i], b[i]);
    }
    lemma_sum_ext(a.len(), h, k);
}

/// Scaling the weights scales the switched table.
pub proof fn lemma_scaled_switched(e: Seq<F128>, w: Seq<F128>, g: F128)
    requires
        w.len() == 128,
    ensures
        switched_table(e, scaled(w, g)) == scaled(switched_table(e, w), g),
{
    assert forall|j: int| 0 <= j < e.len() implies switched_table(e, scaled(w, g))[j]
        == #[trigger] scaled(switched_table(e, w), g)[j] by {
        assert(scaled(w, g) =~= Seq::new(128, |u: int| g * w[u]));
        lemma_scaled_weights(e[j], w, g);
    }
    assert(switched_table(e, scaled(w, g)) =~= scaled(switched_table(e, w), g));
}

/// The value of each claim's table at a point, times its coefficient.
pub open spec fn claim_finals<S>(
    bc: BatchChallenges<S>,
    xs: Seq<Seq<F128>>,
    tables: Seq<Seq<F128>>,
    ch: Seq<F128>,
) -> Seq<F128> {
    Seq::new(
        xs.len() + tables.len(),
        |k: int|
            if k < xs.len() {
                bc.gammas[k] * mle(switched_table(eq_table(tail(xs[k])), bc.weights[k]), ch)
            } else {
                bc.gammas[k] * mle(tables[k - xs.len()], ch)
            },
    )
}

/// The value at a point of the combined table is the sum of the claims'.
pub proof fn lemma_combined_value<S>(
    bc: BatchChallenges<S>,
    xs: Seq<Seq<F128>>,
    tables: Seq<Seq<F128>>,
    ch: Seq<F128>,
)
    requires
        bc.weights.len() == xs.len(),
        forall|i: int| 0 <= i < xs.len() ==> (#[trigger] bc.weights[i]).len() == 128,
        forall|i: int| 0 <= i < xs.len() ==> (#[trigger] xs[i]).len() == ch.len() + 1,
        forall|k: int| 0 <= k < tables.len() ==> (#[trigger] tables[k]).len() == pow2(ch.len()),
    ensures
        mle(combined(claim_tables(bc, xs, tables), pow2(ch.len())), ch) == total(
            claim_finals(bc, xs, tables, ch),
        ),
{
    let all = claim_tables(bc, xs, tables);
    let finals = claim_finals(bc, xs, tables, ch);
    let e = eq_table(ch);
    let n = pow2(ch.len());
    lemma_dot_commutes(combined(all, n), e);
    lemma_combined_dot(e, all);
    let d = dot_of(e, all);
    let f = |k: int| finals[k];
    assert forall|k: int| 0 <= k < all.len() implies #[trigger] d(k) == f(k) by {
        if k < xs.len() {
            assert(bc.weights[k].len() == 128);
            assert(xs[k].len() == ch.len() + 1);
            let t = switched_table(eq_table(tail(xs[k])), bc.weights[k]);
            lemma_scaled_switched(eq_table(tail(xs[k])), bc.weights[k], bc.gammas[k]);
            lemma_scaled_dot(e, t, bc.gammas[k]);
            lemma_dot_commutes(e, t);
        } else {
            let t = tables[k - xs.len()];
            assert(t.len() == n);
            lemma_scaled_dot(e, t, bc.gammas[k]);
            lemma_dot_commutes(e, t);
        }
    }
    lemma_sum_ext(all.len(), d, f);
}

// ---------------------------------------------------------------------------
// The verifiers
// ---------------------------------------------------------------------------

/// Run the BaseFold verifier for a commitment.
fn verify_basefold<Ch: Challenger>(
    target: F128,
    proof_in: &BaseFoldProof,
    commitment: &Commitment,
    challenger: &mut Ch,
) -> (r: Result<Vec<F128>, basefold::VerifyError>)
    requires
        commitment.params.wf(),
        reaches_queries(
            *proof_in,
            commitment.params.log_batch_size as nat,
        ) ==> rate_is_known(commitment.params.log_inv_rate as nat),
    ensures
        forall|ntt: AdditiveNttF128| #[trigger]
            is_standard(ntt, commitment.params.code_dim()) ==> {
                let v = proof_verdict::<Ch>(
                    old(challenger).state(),
                    target,
                    *proof_in,
                    commitment.root@,
                    &ntt,
                    commitment.params.log_inv_rate as nat,
                    commitment.params.log_batch_size as nat,
                );
                &&& final(challenger).state() == v.state
                &&& same_result(r, of_rounds(v.result, commitment.params.msg_log()))
            },
        r is Ok ==> r->Ok_0@.len() == commitment.params.msg_log(),
        exists|ntt: AdditiveNttF128| is_standard(ntt, commitment.params.code_dim()),
{
    proof {
        lemma_code_sizes(commitment.params);
    }
    let log_msg_len: usize = commitment.params.log_msg_len();
    let ntt = AdditiveNttF128::standard(commitment.params.k_code());
    let ghost params = commitment.params;
    let ghost s = challenger.state();
    let r = basefold::verify(
        target,
        proof_in,
        &commitment.root,
        &ntt,
        commitment.params.log_inv_rate,
        commitment.params.log_batch_size,
        challenger,
    );
    proof {
        assert(is_standard(ntt, params.code_dim()));
        assert forall|other: AdditiveNttF128| #[trigger]
            is_standard(other, params.code_dim()) implies proof_verdict::<Ch>(
            s,
            target,
            *proof_in,
            commitment.root@,
            &other,
            params.log_inv_rate as nat,
            params.log_batch_size as nat,
        ) == proof_verdict::<Ch>(
            s,
            target,
            *proof_in,
            commitment.root@,
            &ntt,
            params.log_inv_rate as nat,
            params.log_batch_size as nat,
        ) by {
            lemma_verdict_depends_on_table::<Ch>(
                &ntt,
                &other,
                s,
                target,
                *proof_in,
                commitment.root@,
                params.log_inv_rate as nat,
                params.log_batch_size as nat,
            );
        }
    }
    match r {
        Err(e) => Err(e),
        Ok(challenges) => {
            if challenges.len() != log_msg_len {
                return Err(basefold::VerifyError::InvalidProofShape);
            }
            Ok(challenges)
        },
    }
}

/// Verify an opening proof against the commitment. Returns `Ok(())` iff valid.
pub fn verify_opening<Ch: Challenger>(
    commitment: &Commitment,
    claim: F128,
    z_skip: F128,
    x_outer: &[F128],
    proof_in: &OpeningProof,
    challenger: &mut Ch,
) -> (r: Result<(), VerifyError>)
    requires
        commitment.params.wf(),
        switch_error(proof_in.ring_switch.s_hat_v@, claim, z_skip, x_outer@) is None
            && reaches_queries(
            proof_in.basefold,
            commitment.params.log_batch_size as nat,
        ) ==> rate_is_known(commitment.params.log_inv_rate as nat),
        x_outer@.len() >= 1,
        forall|ntt: AdditiveNttF128| #[trigger]
            is_standard(ntt, commitment.params.code_dim()) && compares_tables(
                opening_verdict::<Ch>(
                    old(challenger).state(),
                    *commitment,
                    claim,
                    z_skip,
                    x_outer@,
                    *proof_in,
                    &ntt,
                ).result,
            ) ==> x_outer@.len() == commitment.params.msg_log() + 1,
    ensures
        forall|ntt: AdditiveNttF128| #[trigger]
            is_standard(ntt, commitment.params.code_dim()) ==> {
                let v = opening_verdict::<Ch>(
                    old(challenger).state(),
                    *commitment,
                    claim,
                    z_skip,
                    x_outer@,
                    *proof_in,
                    &ntt,
                );
                r == v.result && final(challenger).state() == v.state
            },
{
    let label: [u8; 17] = [
        0x66, 0x6c, 0x6f, 0x63, 0x6b, 0x2d, 0x70, 0x63, 0x73, 0x2d, 0x6f, 0x70, 0x65, 0x6e, 0x2d,
        0x76, 0x30,
    ];
    assert(label@ =~= open_label());
    challenger.observe_label(&label);
    // Ring-switching: claim → sumcheck claim + weights. The table is never
    // built on the verifier side.
    let rs_output = match ring_switch::verify_succinct(
        claim,
        z_skip,
        x_outer,
        &proof_in.ring_switch,
        challenger,
    ) {
        Err(e) => {
            return Err(VerifyError::RingSwitch(e));
        },
        Ok(o) => o,
    };
    // BaseFold sumcheck + FRI: sumcheck claim → verified final_a · final_b.
    let challenges = match verify_basefold(
        rs_output.sumcheck_claim,
        &proof_in.basefold,
        commitment,
        challenger,
    ) {
        Err(e) => {
            return Err(VerifyError::BaseFold(e));
        },
        Ok(c) => c,
    };
    // Independent check: final_b must be the value of the table at the
    // challenges.
    proof {
        let ntt = choose|ntt: AdditiveNttF128| is_standard(ntt, commitment.params.code_dim());
        assert(is_standard(ntt, commitment.params.code_dim()));
    }
    let expected_final_b = eval_rs_eq(
        slice_subrange(x_outer, 1, x_outer.len()),
        &challenges,
        &rs_output.eq_r_dprime,
    );
    if expected_final_b != proof_in.basefold.final_b {
        return Err(VerifyError::FinalBMismatch);
    }
    Ok(())
}

/// Verify a batched opening produced by `open_batch`. Each `(claim, z_skip,
/// x_outer)` triple is checked via its own ring-switching message; then the
/// random-linear-combination of their tables is verified against the
/// single BaseFold proof.
pub fn verify_opening_batch<Ch: Challenger>(
    commitment: &Commitment,
    claims: &[F128],
    z_skips: &[F128],
    x_outers: &[&[F128]],
    proof_in: &BatchOpeningProof,
    challenger: &mut Ch,
) -> (r: Result<(), VerifyError>)
    requires
        commitment.params.wf(),
        first_switch_error(
            proof_messages(proof_in.ring_switches@),
            claims@,
            z_skips@,
            views(x_outers@),
            0,
        ) is None && reaches_queries(
            proof_in.basefold,
            commitment.params.log_batch_size as nat,
        ) ==> rate_is_known(commitment.params.log_inv_rate as nat),
        claims@.len() > 0,
        z_skips@.len() == claims@.len(),
        x_outers@.len() == claims@.len(),
        proof_in.ring_switches@.len() == claims@.len(),
        forall|i: int| 0 <= i < x_outers@.len() ==> (#[trigger] x_outers@[i])@.len() >= 1,
        forall|ntt: AdditiveNttF128| #[trigger]
            is_standard(ntt, commitment.params.code_dim()) && compares_tables(
                mixed_verdict::<Ch>(
                    old(challenger).state(),
                    *commitment,
                    claims@,
                    z_skips@,
                    views(x_outers@),
                    Seq::empty(),
                    Seq::empty(),
                    *proof_in,
                    &ntt,
                ).result,
            ) ==> points_fit(views(x_outers@), Seq::empty(), commitment.params.msg_log()),
    ensures
        forall|ntt: AdditiveNttF128| #[trigger]
            is_standard(ntt, commitment.params.code_dim()) ==> {
                let v = mixed_verdict::<Ch>(
                    old(challenger).state(),
                    *commitment,
                    claims@,
                    z_skips@,
                    views(x_outers@),
                    Seq::empty(),
                    Seq::empty(),
                    *proof_in,
                    &ntt,
                );
                r == v.result && final(challenger).state() == v.state
            },
{
    let none: [PackedDirectClaimRef; 0] = [];
    proof {
        assert(ref_tables(none@) =~= Seq::<Seq<F128>>::empty());
        assert(ref_values(none@) =~= Seq::<F128>::empty());
    }
    verify_opening_batch_mixed(
        commitment,
        claims,
        z_skips,
        x_outers,
        &none,
        proof_in,
        challenger,
    )
}

/// A batch of claims, reduced to one: the target, and what determines the
/// combined table.
#[derive(Clone, Debug)]
pub struct ReducedClaims {
    pub target_combined: F128,
    /// The column weights of each ring-switched claim.
    pub eq_r_dprimes: Vec<Vec<F128>>,
    /// The coefficients of the ring-switched claims.
    pub gammas_rs: Vec<F128>,
    /// The coefficients of the packed-direct claims.
    pub gammas_pd: Vec<F128>,
}

impl ReducedClaims {
    /// The challenges that the reduction stands for.
    pub open spec fn holds<S>(&self, bc: BatchChallenges<S>) -> bool {
        &&& self.eq_r_dprimes@.len() == bc.weights.len()
        &&& forall|i: int|
            0 <= i < bc.weights.len() ==> (#[trigger] self.eq_r_dprimes@[i])@ == bc.weights[i]
                && bc.weights[i].len() == 128
        &&& self.gammas_rs@.len() == bc.weights.len()
        &&& self.gammas_rs@ + self.gammas_pd@ == bc.gammas
    }

    /// The terms of [`ReducedClaims::value_at`].
    pub open spec fn claim_values(
        &self,
        xs: Seq<Seq<F128>>,
        tables: Seq<Seq<F128>>,
        ch: Seq<F128>,
    ) -> Seq<F128> {
        Seq::new(
            xs.len() + tables.len(),
            |k: int|
                if k < xs.len() {
                    self.gammas_rs@[k] * mle(
                        switched_table(eq_table(tail(xs[k])), self.eq_r_dprimes@[k]@),
                        ch,
                    )
                } else {
                    self.gammas_pd@[k - xs.len()] * mle(tables[k - xs.len()], ch)
                },
        )
    }

    /// The sum of the values at `ch` of the claims' tables, each times its coefficient.
    pub open spec fn value_at(
        &self,
        xs: Seq<Seq<F128>>,
        tables: Seq<Seq<F128>>,
        ch: Seq<F128>,
    ) -> F128 {
        total(self.claim_values(xs, tables, ch))
    }

    /// The claims have their coefficients and their points the given length.
    pub open spec fn fits(
        &self,
        xs: Seq<Seq<F128>>,
        pd: Seq<PackedDirectClaimRef>,
        n: nat,
    ) -> bool {
        &&& self.gammas_rs@.len() == xs.len()
        &&& self.eq_r_dprimes@.len() == xs.len()
        &&& self.gammas_pd@.len() == pd.len()
        &&& forall|i: int| 0 <= i < xs.len() ==> (#[trigger] self.eq_r_dprimes@[i])@.len() == 128
        &&& forall|i: int| 0 <= i < xs.len() ==> (#[trigger] xs[i]).len() == n + 1
        &&& forall|k: int| 0 <= k < pd.len() ==> (#[trigger] pd[k]).point@.len() == n
    }

    /// The value at `challenges` of the combined table: each ring-switched
    /// claim by the succinct recurrence, each packed-direct claim by the
    /// product formula.
    pub fn table_value(
        &self,
        x_outers: &[&[F128]],
        packed_direct: &[PackedDirectClaimRef],
        challenges: &[F128],
    ) -> (r: F128)
        requires
            self.fits(views(x_outers@), packed_direct@, challenges@.len()),
        ensures
            r == self.value_at(views(x_outers@), ref_tables(packed_direct@), challenges@),
    {
        let ghost xs = views(x_outers@);
        let ghost tables = ref_tables(packed_direct@);
        let ghost finals = self.claim_values(xs, tables, challenges@);
        let ghost f = |k: int| finals[k];
        let n_rs: usize = x_outers.len();
        let n_pd: usize = packed_direct.len();
        let mut acc = F128::zero();
        let mut i: usize = 0;
        while i < n_rs
            invariant
                i <= n_rs,
                n_rs == x_outers@.len(),
                self.fits(xs, packed_direct@, challenges@.len()),
                xs == views(x_outers@),
                finals == self.claim_values(xs, tables, challenges@),
                f == (|k: int| finals[k]),
                acc == sum(i as nat, f),
            decreases n_rs - i,
        {
            assert(xs[i as int].len() == challenges@.len() + 1);
            assert(self.eq_r_dprimes@[i as int]@.len() == 128);
            let x_outer = x_outers[i];
            let part = slice_subrange(x_outer, 1, x_outer.len());
            assert(part@ == tail(xs[i as int]));
            let v = eval_rs_eq(part, challenges, &self.eq_r_dprimes[i]);
            proof {
                assert(sum((i + 1) as nat, f) == sum(i as nat, f) + f(i as int));
            }
            acc = acc + self.gammas_rs[i] * v;
            i = i + 1;
        }
        let mut k: usize = 0;
        while k < n_pd
            invariant
                k <= n_pd,
                n_pd == packed_direct@.len(),
                n_rs == xs.len(),
                self.fits(xs, packed_direct@, challenges@.len()),
                tables == ref_tables(packed_direct@),
                finals == self.claim_values(xs, tables, challenges@),
                f == (|k: int| finals[k]),
                acc == sum((n_rs + k) as nat, f),
            decreases n_pd - k,
        {
            assert(packed_direct@[k as int].point@.len() == challenges@.len());
            let v = eq_eval(packed_direct[k].point, challenges);
            proof {
                assert(sum((n_rs + k + 1) as nat, f) == sum((n_rs + k) as nat, f) + f(n_rs + k));
            }
            acc = acc + self.gammas_pd[k] * v;
            k = k + 1;
        }
        acc
    }
}

/// The values of a reduction are those of the combined table that it stands for.
pub proof fn lemma_table_value<S>(
    reduced: ReducedClaims,
    bc: BatchChallenges<S>,
    xs: Seq<Seq<F128>>,
    pd: Seq<PackedDirectClaimRef>,
    ch: Seq<F128>,
)
    requires
        reduced.holds(bc),
        reduced.fits(xs, pd, ch.len()),
    ensures
        reduced.value_at(xs, ref_tables(pd), ch) == mle(
            combined(claim_tables(bc, xs, ref_tables(pd)), pow2(ch.len())),
            ch,
        ),
{
    let tables = ref_tables(pd);
    assert forall|i: int| 0 <= i < xs.len() implies (#[trigger] bc.weights[i]).len() == 128 by {
        assert(reduced.eq_r_dprimes@[i]@ == bc.weights[i]);
    }
    assert forall|k: int| 0 <= k < tables.len() implies (#[trigger] tables[k]).len() == pow2(
        ch.len(),
    ) by {
        assert(pd[k].point@.len() == ch.len());
    }
    lemma_combined_value(bc, xs, tables, ch);
    assert(reduced.claim_values(xs, tables, ch) =~= claim_finals(bc, xs, tables, ch)) by {
        assert forall|k: int| 0 <= k < xs.len() + tables.len() implies reduced.claim_values(
            xs,
            tables,
            ch,
        )[k] == claim_finals(bc, xs, tables, ch)[k] by {
            if k < xs.len() {
                assert(reduced.eq_r_dprimes@[k]@ == bc.weights[k]);
                assert(bc.gammas[k] == reduced.gammas_rs@[k]);
            } else {
                assert(bc.gammas[k] == reduced.gammas_pd@[k - xs.len()]);
            }
        }
    }
}

/// Reduce a batch of claims to one: check every ring-switching message,
/// observe the packed-direct values and sample all coefficients. This is the
/// part of the verification that comes before the proof of the combined claim.
pub fn reduce_claims<Ch: Challenger>(
    claims: &[F128],
    z_skips: &[F128],
    x_outers: &[&[F128]],
    packed_direct: &[PackedDirectClaimRef],
    ring_switches: &Vec<RingSwitchProof>,
    challenger: &mut Ch,
) -> (r: Result<ReducedClaims, ring_switch::VerifyError>)
    requires
        z_skips@.len() == claims@.len(),
        x_outers@.len() == claims@.len(),
        ring_switches@.len() == claims@.len(),
        forall|i: int| 0 <= i < x_outers@.len() ==> (#[trigger] x_outers@[i])@.len() >= 1,
    ensures
        ({
            let s0 = Ch::after_label(old(challenger).state(), batch_label());
            let messages = proof_messages(ring_switches@);
            let values = ref_values(packed_direct@);
            let error = first_switch_error(messages, claims@, z_skips@, views(x_outers@), 0);
            match r {
                Err(e) => {
                    &&& error is Some
                    &&& error->Some_0.1 == e
                    &&& final(challenger).state() == switched_state::<Ch>(
                        s0,
                        messages,
                        error->Some_0.0,
                    )
                },
                Ok(o) => {
                    let bc = batch_challenges::<Ch>(s0, messages, values);
                    &&& error is None
                    &&& o.holds(bc)
                    &&& o.gammas_pd@.len() == packed_direct@.len()
                    &&& o.target_combined == total(claim_targets(bc, messages, values))
                    &&& final(challenger).state() == bc.state
                },
            }
        }),
{
    let ghost s0 = Ch::after_label(challenger.state(), batch_label());
    let ghost messages = proof_messages(ring_switches@);
    let ghost xs = views(x_outers@);
    let ghost values_spec = ref_values(packed_direct@);
    let ghost error = first_switch_error(messages, claims@, z_skips@, xs, 0);
    let ghost bc = batch_challenges::<Ch>(s0, messages, values_spec);
    let n_rs: usize = claims.len();
    let n_pd: usize = packed_direct.len();
    let label: [u8; 23] = [
        0x66, 0x6c, 0x6f, 0x63, 0x6b, 0x2d, 0x70, 0x63, 0x73, 0x2d, 0x6f, 0x70, 0x65, 0x6e, 0x2d,
        0x62, 0x61, 0x74, 0x63, 0x68, 0x2d, 0x76, 0x30,
    ];
    assert(label@ =~= batch_label());
    challenger.observe_label(&label);
    // 1. Ring-switch every claim.
    let mut sumcheck_claims: Vec<F128> = Vec::with_capacity(n_rs);
    let mut eq_r_dprimes: Vec<Vec<F128>> = Vec::with_capacity(n_rs);
    let mut i: usize = 0;
    while i < n_rs
        invariant
            i <= n_rs,
            n_rs == claims@.len(),
            n_rs == z_skips@.len(),
            n_rs == x_outers@.len(),
            n_rs == ring_switches@.len(),
            forall|i: int| 0 <= i < x_outers@.len() ==> (#[trigger] x_outers@[i])@.len() >= 1,
            xs == views(x_outers@),
            messages == proof_messages(ring_switches@),
            error == first_switch_error(messages, claims@, z_skips@, xs, 0),
            error == first_switch_error(messages, claims@, z_skips@, xs, i as nat),
            bc == batch_challenges::<Ch>(s0, messages, values_spec),
            challenger.state() == switched_state::<Ch>(s0, messages, i as nat),
            s0 == Ch::after_label(old(challenger).state(), batch_label()),
            sumcheck_claims@.len() == i,
            eq_r_dprimes@.len() == i,
            forall|q: int|
                0 <= q < i ==> (#[trigger] eq_r_dprimes@[q])@ == bc.weights[q]
                    && bc.weights[q].len() == 128,
            forall|q: int|
                0 <= q < i ==> #[trigger] sumcheck_claims@[q] == switched_claim(
                    messages[q],
                    bc.weights[q],
                ),
        decreases n_rs - i,
    {
        assert(x_outers@[i as int]@.len() >= 1);
        match ring_switch::verify_succinct(
            claims[i],
            z_skips[i],
            x_outers[i],
            &ring_switches[i],
            challenger,
        ) {
            Err(e) => {
                return Err(e);
            },
            Ok(o) => {
                sumcheck_claims.push(o.sumcheck_claim);
                eq_r_dprimes.push(o.eq_r_dprime);
            },
        }
        i = i + 1;
    }
    // 2. Observe the packed-direct values, then sample all coefficients.
    let mut values: Vec<F128> = Vec::with_capacity(n_pd);
    let mut k: usize = 0;
    while k < n_pd
        invariant
            k <= n_pd,
            n_pd == packed_direct@.len(),
            values@.len() == k,
            forall|q: int| 0 <= q < k ==> #[trigger] values@[q] == packed_direct@[q].value,
        decreases n_pd - k,
    {
        values.push(packed_direct[k].value);
        k = k + 1;
    }
    assert(values@ =~= values_spec);
    let (gammas_rs, gammas_pd) = observe_values(&values, n_rs, challenger);
    assert(bc.gammas =~= gammas_rs@ + gammas_pd@);
    // 3. The combined target.
    let ghost targets = claim_targets(bc, messages, values_spec);
    let ghost tf = |k: int| targets[k];
    let mut target_combined = F128::zero();
    let mut i: usize = 0;
    while i < n_rs
        invariant
            i <= n_rs,
            n_rs == sumcheck_claims@.len(),
            n_rs == gammas_rs@.len(),
            n_rs == messages.len(),
            bc.gammas == gammas_rs@ + gammas_pd@,
            targets == claim_targets(bc, messages, values_spec),
            tf == (|k: int| targets[k]),
            forall|q: int|
                0 <= q < n_rs ==> #[trigger] sumcheck_claims@[q] == switched_claim(
                    messages[q],
                    bc.weights[q],
                ),
            target_combined == sum(i as nat, tf),
        decreases n_rs - i,
    {
        assert(sum((i + 1) as nat, tf) == sum(i as nat, tf) + tf(i as int));
        assert(bc.gammas[i as int] == gammas_rs@[i as int]);
        target_combined = target_combined + gammas_rs[i] * sumcheck_claims[i];
        i = i + 1;
    }
    let mut k: usize = 0;
    while k < n_pd
        invariant
            k <= n_pd,
            n_pd == values@.len(),
            n_pd == gammas_pd@.len(),
            n_rs == gammas_rs@.len(),
            n_rs == messages.len(),
            values@ == values_spec,
            bc.gammas == gammas_rs@ + gammas_pd@,
            targets == claim_targets(bc, messages, values_spec),
            tf == (|k: int| targets[k]),
            target_combined == sum((n_rs + k) as nat, tf),
        decreases n_pd - k,
    {
        assert(sum((n_rs + k + 1) as nat, tf) == sum((n_rs + k) as nat, tf) + tf(n_rs + k));
        assert(bc.gammas[n_rs + k] == gammas_pd@[k as int]);
        target_combined = target_combined + gammas_pd[k] * values[k];
        k = k + 1;
    }
    Ok(ReducedClaims { target_combined, eq_r_dprimes, gammas_rs, gammas_pd })
}

/// Verify a mixed-claim batched opening. Mirror of `open_batch_mixed`.
pub fn verify_opening_batch_mixed<Ch: Challenger>(
    commitment: &Commitment,
    claims: &[F128],
    z_skips: &[F128],
    x_outers: &[&[F128]],
    packed_direct: &[PackedDirectClaimRef],
    proof_in: &BatchOpeningProof,
    challenger: &mut Ch,
) -> (r: Result<(), VerifyError>)
    requires
        commitment.params.wf(),
        first_switch_error(
            proof_messages(proof_in.ring_switches@),
            claims@,
            z_skips@,
            views(x_outers@),
            0,
        ) is None && reaches_queries(
            proof_in.basefold,
            commitment.params.log_batch_size as nat,
        ) ==> rate_is_known(commitment.params.log_inv_rate as nat),
        claims@.len() + packed_direct@.len() > 0,
        z_skips@.len() == claims@.len(),
        x_outers@.len() == claims@.len(),
        proof_in.ring_switches@.len() == claims@.len(),
        forall|i: int| 0 <= i < x_outers@.len() ==> (#[trigger] x_outers@[i])@.len() >= 1,
        forall|ntt: AdditiveNttF128| #[trigger]
            is_standard(ntt, commitment.params.code_dim()) && compares_tables(
                mixed_verdict::<Ch>(
                    old(challenger).state(),
                    *commitment,
                    claims@,
                    z_skips@,
                    views(x_outers@),
                    ref_tables(packed_direct@),
                    ref_values(packed_direct@),
                    *proof_in,
                    &ntt,
                ).result,
            ) ==> points_fit(
                views(x_outers@),
                packed_direct@,
                commitment.params.msg_log(),
            ),
    ensures
        forall|ntt: AdditiveNttF128| #[trigger]
            is_standard(ntt, commitment.params.code_dim()) ==> {
                let v = mixed_verdict::<Ch>(
                    old(challenger).state(),
                    *commitment,
                    claims@,
                    z_skips@,
                    views(x_outers@),
                    ref_tables(packed_direct@),
                    ref_values(packed_direct@),
                    *proof_in,
                    &ntt,
                );
                r == v.result && final(challenger).state() == v.state
            },
{
    let ghost s0 = Ch::after_label(challenger.state(), batch_label());
    let ghost messages = proof_messages(proof_in.ring_switches@);
    let ghost bc = batch_challenges::<Ch>(s0, messages, ref_values(packed_direct@));
    let reduced = match reduce_claims(
        claims,
        z_skips,
        x_outers,
        packed_direct,
        &proof_in.ring_switches,
        challenger,
    ) {
        Err(e) => {
            return Err(VerifyError::RingSwitch(e));
        },
        Ok(o) => o,
    };
    // BaseFold against the combined target.
    let challenges = match verify_basefold(
        reduced.target_combined,
        &proof_in.basefold,
        commitment,
        challenger,
    ) {
        Err(e) => {
            return Err(VerifyError::BaseFold(e));
        },
        Ok(c) => c,
    };
    // `final_b` must be the value of the combined table at the challenges.
    proof {
        let xs = views(x_outers@);
        let ntt = choose|ntt: AdditiveNttF128| is_standard(ntt, commitment.params.code_dim());
        assert(is_standard(ntt, commitment.params.code_dim()));
        assert(points_fit(xs, packed_direct@, challenges@.len()));
        assert forall|i: int| 0 <= i < xs.len() implies (#[trigger] reduced.eq_r_dprimes@[i])@.len()
            == 128 by {
            assert(bc.weights.len() == xs.len());
            assert(reduced.eq_r_dprimes@[i]@ == bc.weights[i]);
        }
        lemma_table_value(reduced, bc, xs, packed_direct@, challenges@);
    }
    let expected_final_b = reduced.table_value(x_outers, packed_direct, &challenges);
    if expected_final_b != proof_in.basefold.final_b {
        return Err(VerifyError::FinalBMismatch);
    }
    Ok(())
}

} // verus!
