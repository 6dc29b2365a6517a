//! What the commitment scheme promises as a whole.
use vstd::arithmetic::power2::{lemma2_to64, pow2};
use vstd::prelude::*;
use crate::algebra::{lemma_sum_ext, lemma_sum_update};
use crate::challenger::Challenger;
use crate::field::gf2_128::{lemma_add_rules, lemma_mul_distributes, lemma_no_zero_divisors};
use crate::field::F128;
use crate::merkle::{is_tree, leaf_hashes, merkle_root};
use crate::ntt::additive_ntt_f128::{evals_of, standard_basis, AdditiveNttF128};
use crate::pcs::basefold;
use crate::pcs::basefold::laws::{
    lemma_honest_proof_is_accepted, lemma_query_count_is_enforced, lemma_replayed_prefix,
    lemma_rounds_separate, lemma_run_is_determined, lemma_verdict_depends_on_table, same_proof,
};
use crate::pcs::basefold::check::{replayed, CheckedRounds};
use crate::pcs::basefold::prover::code_of;
use crate::pcs::basefold::{basefold_label, honest_run, query_count, BaseFoldProof};
use crate::pcs::combine::{
    batch_challenges, batch_label, claim_tables, claim_targets, combined, direct_tables,
    direct_values, total, BatchChallenges, PackedDirectClaim,
};
use crate::pcs::commit::{is_codeword, lemma_code_sizes, Commitment, PcsParams, ProverData};
use crate::pcs::fold::low_message;
use crate::pcs::open::{
    basefold_part, batch_opened, code, is_standard, lemma_opening_sizes, open_label,
    opening_params, prover_data_fits, BatchOpeningProof, OpeningProof,
};
use crate::pcs::ring_switch;
use crate::pcs::ring_switch::batch::{claim_messages, given, switched_state, views};
use crate::pcs::ring_switch::laws::{
    bit_claim, lemma_padding_is_immaterial, lemma_recombined_is_bit_claim,
    lemma_switched_claim_is_inner_product,
};
use crate::pcs::ring_switch::{
    after_switch, kept, partial_evaluations, ring_switch_label, switch_point, switched_claim,
    switched_table, tail,
};
use crate::pcs::verify::{
    dot_of, first_switch_error, lemma_combined_dot, lemma_scaled_dot, lemma_scaled_switched,
    mixed_verdict, opening_verdict, proof_messages, table_verdict, VerifyError,
};
use crate::zerocheck::multilinear::{dot, eq_table, mle};
use crate::zerocheck::{dense_padding, lemma_dense_is_live, PaddingSpec};

verus! {

/// The commitment and the prover's data are those of the witness.
pub open spec fn committed(z: Seq<F128>, commitment: Commitment, data: ProverData) -> bool {
    let params = commitment.params;
    let leaves = leaf_hashes(data.codeword@, pow2(params.code_dim()));
    &&& opening_params(params)
    &&& prover_data_fits(z, data, params)
    &&& is_codeword(data.codeword@, z, params)
    &&& is_tree(data.merkle_tree@, leaves, params.code_dim())
    &&& commitment.root@ == merkle_root(leaves, params.code_dim())
}

/// The BaseFold part of an honest opening passes, and its final value is that
/// of the table.
proof fn lemma_basefold_part_passes<Ch: Challenger>(
    s: Ch::State,
    end: Ch::State,
    out: BaseFoldProof,
    z: Seq<F128>,
    b: Seq<F128>,
    prime: Option<(F128, F128)>,
    commitment: Commitment,
    data: ProverData,
    ntt: AdditiveNttF128,
)
    requires
        committed(z, commitment, data),
        b.len() == z.len(),
        prime is Some ==> prime->Some_0 == low_message(z, b),
        basefold_part::<Ch>(s, end, out, z, b, prime, data, commitment.params),
        is_standard(ntt, commitment.params.code_dim()),
    ensures
        ({
            let v = table_verdict::<Ch>(
                s,
                dot(z, b),
                b,
                out,
                commitment.root@,
                commitment.params,
                &ntt,
            );
            v.result == Ok::<(), VerifyError>(()) && v.state == end
        }),
{
    let params = commitment.params;
    let c = code(params);
    lemma_opening_sizes(params, z, data);
    lemma_code_sizes(params);
    let own = choose|own: AdditiveNttF128|
        #[trigger] is_standard(own, params.code_dim()) && honest_run::<Ch>(
            s,
            end,
            out,
            &own,
            data.codeword@,
            data.merkle_tree@,
            c,
            z,
            b,
            prime,
            query_count(params.log_inv_rate as nat),
        );
    assert(own.table() == evals_of(standard_basis(params.code_dim())));
    assert(own.dim() == params.code_dim());
    lemma_honest_proof_is_accepted::<Ch>(
        s,
        end,
        out,
        &own,
        data.codeword@,
        data.merkle_tree@,
        c,
        z,
        b,
        prime,
        query_count(params.log_inv_rate as nat),
    );
    lemma_verdict_depends_on_table::<Ch>(
        &own,
        &ntt,
        s,
        dot(z, b),
        out,
        commitment.root@,
        params.log_inv_rate as nat,
        params.log_batch_size as nat,
    );
}

/// An honest opening is accepted: commit to a witness, open it at a point,
/// and the verifier accepts the witness's value there, in the same state as
/// the prover.
pub proof fn lemma_opening_is_accepted<Ch: Challenger>(
    s: Ch::State,
    end: Ch::State,
    out: OpeningProof,
    z: Seq<F128>,
    commitment: Commitment,
    data: ProverData,
    z_skip: F128,
    x_outer: Seq<F128>,
    ntt: AdditiveNttF128,
)
    requires
        committed(z, commitment, data),
        x_outer.len() == commitment.params.msg_log() + 1,
        ({
            let s0 = Ch::after_label(s, open_label());
            let e = eq_table(tail(x_outer));
            let message = partial_evaluations(z, e);
            &&& out.ring_switch.s_hat_v@ == message
            &&& basefold_part::<Ch>(
                after_switch::<Ch>(s0, message),
                end,
                out.basefold,
                z,
                switched_table(e, eq_table(switch_point::<Ch>(s0, message))),
                None,
                data,
                commitment.params,
            )
        }),
        is_standard(ntt, commitment.params.code_dim()),
    ensures
        ({
            let v = opening_verdict::<Ch>(
                s,
                commitment,
                bit_claim(z, z_skip, x_outer),
                z_skip,
                x_outer,
                out,
                &ntt,
            );
            v.result == Ok::<(), VerifyError>(()) && v.state == end
        }),
{
    let s0 = Ch::after_label(s, open_label());
    let e = eq_table(tail(x_outer));
    let message = partial_evaluations(z, e);
    let w = eq_table(switch_point::<Ch>(s0, message));
    lemma_recombined_is_bit_claim(z, z_skip, x_outer);
    lemma_switched_claim_is_inner_product(z, e, w);
    lemma_basefold_part_passes::<Ch>(
        after_switch::<Ch>(s0, message),
        end,
        out.basefold,
        z,
        switched_table(e, w),
        None,
        commitment,
        data,
        ntt,
    );
}

/// An honest message does not pass for a claim that is not the witness's
/// value.
pub proof fn lemma_wrong_claim_is_rejected<Ch: Challenger>(
    s: Ch::State,
    out: OpeningProof,
    z: Seq<F128>,
    commitment: Commitment,
    claim: F128,
    z_skip: F128,
    x_outer: Seq<F128>,
    ntt: &AdditiveNttF128,
)
    requires
        x_outer.len() >= 1,
        z.len() == pow2((x_outer.len() - 1) as nat),
        out.ring_switch.s_hat_v@ == partial_evaluations(z, eq_table(tail(x_outer))),
        claim != bit_claim(z, z_skip, x_outer),
    ensures
        opening_verdict::<Ch>(s, commitment, claim, z_skip, x_outer, out, ntt).result == Err::<
            (),
            VerifyError,
        >(VerifyError::RingSwitch(ring_switch::VerifyError::ClaimMismatch)),
{
    lemma_recombined_is_bit_claim(z, z_skip, x_outer);
}

/// An opening with too few queries, or too many, is not accepted.
pub proof fn lemma_query_count_matters<Ch: Challenger>(
    s: Ch::State,
    out: OpeningProof,
    commitment: Commitment,
    claim: F128,
    z_skip: F128,
    x_outer: Seq<F128>,
    ntt: &AdditiveNttF128,
)
    requires
        out.basefold.queries@.len() != query_count(commitment.params.log_inv_rate as nat),
    ensures
        ({
            let r = opening_verdict::<Ch>(s, commitment, claim, z_skip, x_outer, out, ntt).result;
            ||| r == Err::<(), VerifyError>(
                VerifyError::BaseFold(basefold::VerifyError::InvalidProofShape),
            )
            ||| r is Err && r->Err_0 is RingSwitch
        }),
{
    let s0 = Ch::after_label(s, open_label());
    let message = out.ring_switch.s_hat_v@;
    let w = eq_table(switch_point::<Ch>(s0, message));
    lemma_query_count_is_enforced::<Ch>(
        after_switch::<Ch>(s0, message),
        switched_claim(message, w),
        out.basefold,
        commitment.root@,
        ntt,
        commitment.params.log_inv_rate as nat,
        commitment.params.log_batch_size as nat,
    );
}

// ---------------------------------------------------------------------------
// Batches
// ---------------------------------------------------------------------------

/// Every packed-direct claim is true, and its table is that of its point.
pub open spec fn direct_claims_hold(z: Seq<F128>, pd: Seq<PackedDirectClaim>) -> bool {
    forall|k: int|
        0 <= k < pd.len() ==> {
            &&& (#[trigger] pd[k]).value == mle(z, pd[k].point@)
            &&& pd[k].eq_ind.table() == eq_table(pd[k].point@)
            &&& pow2(pd[k].point@.len()) == z.len()
        }
}

/// Every message that is given is the one that would be computed.
pub open spec fn given_messages_hold(
    z: Seq<F128>,
    xs: Seq<Seq<F128>>,
    precomputed: Seq<Option<&[F128]>>,
) -> bool {
    forall|i: int|
        0 <= i < xs.len() && given(precomputed, i) is Some ==> (#[trigger] given(
            precomputed,
            i,
        ))->Some_0 == partial_evaluations(z, eq_table(tail(xs[i])))
}

/// The values of the ring-switched claims.
pub open spec fn bit_claims(z: Seq<F128>, z_skips: Seq<F128>, xs: Seq<Seq<F128>>) -> Seq<F128> {
    Seq::new(xs.len(), |i: int| bit_claim(z, z_skips[i], xs[i]))
}

proof fn lemma_messages_pass(
    z: Seq<F128>,
    messages: Seq<Seq<F128>>,
    z_skips: Seq<F128>,
    xs: Seq<Seq<F128>>,
    i: nat,
)
    requires
        messages.len() == xs.len(),
        forall|k: int|
            0 <= k < xs.len() ==> #[trigger] messages[k] == partial_evaluations(
                z,
                eq_table(tail(xs[k])),
            ),
        forall|k: int|
            0 <= k < xs.len() ==> (#[trigger] xs[k]).len() >= 1 && z.len() == pow2(
                (xs[k].len() - 1) as nat,
            ),
    ensures
        first_switch_error(messages, bit_claims(z, z_skips, xs), z_skips, xs, i) is None,
    decreases messages.len() - i,
{
    if i < messages.len() {
        assert(messages[i as int] == partial_evaluations(z, eq_table(tail(xs[i as int]))));
        assert(xs[i as int].len() >= 1);
        lemma_recombined_is_bit_claim(z, z_skips[i as int], xs[i as int]);
        lemma_messages_pass(z, messages, z_skips, xs, i + 1);
    }
}

/// The combined target of true claims is the inner product of the witness with
/// the combined table.
pub proof fn lemma_combined_target<S>(
    bc: BatchChallenges<S>,
    z: Seq<F128>,
    messages: Seq<Seq<F128>>,
    xs: Seq<Seq<F128>>,
    tables: Seq<Seq<F128>>,
    values: Seq<F128>,
)
    requires
        messages.len() == xs.len(),
        tables.len() == values.len(),
        bc.weights.len() == xs.len(),
        forall|k: int| 0 <= k < xs.len() ==> (#[trigger] bc.weights[k]).len() == 128,
        forall|k: int|
            0 <= k < xs.len() ==> #[trigger] messages[k] == partial_evaluations(
                z,
                eq_table(tail(xs[k])),
            ),
        forall|k: int|
            0 <= k < xs.len() ==> (#[trigger] xs[k]).len() >= 1 && z.len() == pow2(
                (xs[k].len() - 1) as nat,
            ),
        forall|k: int|
            0 <= k < tables.len() ==> (#[trigger] tables[k]).len() == z.len() && dot(
                z,
                tables[k],
            ) == values[k],
    ensures
        total(claim_targets(bc, messages, values)) == dot(
            z,
            combined(claim_tables(bc, xs, tables), z.len()),
        ),
{
    let all = claim_tables(bc, xs, tables);
    let targets = claim_targets(bc, messages, values);
    lemma_combined_dot(z, all);
    let d = dot_of(z, all);
    let f = |k: int| targets[k];
    assert forall|k: int| 0 <= k < all.len() implies #[trigger] f(k) == d(k) by {
        let g = bc.gammas[k];
        if k < xs.len() {
            assert(xs[k].len() >= 1);
            assert(bc.weights[k].len() == 128);
            let e = eq_table(tail(xs[k]));
            let w = bc.weights[k];
            assert(messages[k] == partial_evaluations(z, e));
            lemma_scaled_switched(e, w, g);
            lemma_scaled_dot(z, switched_table(e, w), g);
            lemma_switched_claim_is_inner_product(z, e, w);
        } else {
            let q = k - xs.len();
            assert(tables[q].len() == z.len());
            lemma_scaled_dot(z, tables[q], g);
        }
    }
    lemma_sum_ext(all.len(), f, d);
}

/// An honest batched opening is accepted: ring-switched claims, packed-direct
/// claims or both, opened together against one commitment, all verify, and
/// the verifier ends in the prover's state. The padding may leave out only
/// what is zero, and messages that are given must be the honest ones.
pub proof fn lemma_batch_opening_is_accepted<Ch: Challenger>(
    s: Ch::State,
    end: Ch::State,
    out: BatchOpeningProof,
    z: Seq<F128>,
    commitment: Commitment,
    data: ProverData,
    x_outers: Seq<&[F128]>,
    z_skips: Seq<F128>,
    precomputed: Seq<Option<&[F128]>>,
    pd: Seq<PackedDirectClaim>,
    padding: PaddingSpec,
    ntt: AdditiveNttF128,
)
    requires
        committed(z, commitment, data),
        forall|i: int|
            0 <= i < x_outers.len() ==> (#[trigger] x_outers[i])@.len()
                == commitment.params.msg_log() + 1,
        given_messages_hold(z, views(x_outers), precomputed),
        direct_claims_hold(z, pd),
        kept(z, padding) == z,
        batch_opened::<Ch>(
            s,
            end,
            out,
            z,
            data,
            commitment.params,
            x_outers,
            precomputed,
            pd,
            padding,
        ),
        is_standard(ntt, commitment.params.code_dim()),
    ensures
        ({
            let v = mixed_verdict::<Ch>(
                s,
                commitment,
                bit_claims(z, z_skips, views(x_outers)),
                z_skips,
                views(x_outers),
                Seq::new(pd.len(), |k: int| eq_table(pd[k].point@)),
                direct_values(pd),
                out,
                &ntt,
            );
            v.result == Ok::<(), VerifyError>(()) && v.state == end
        }),
{
    let params = commitment.params;
    let xs = views(x_outers);
    let messages = claim_messages(z, padding, xs, precomputed);
    let values = direct_values(pd);
    let s0 = Ch::after_label(s, batch_label());
    let bc = batch_challenges::<Ch>(s0, messages, values);
    let tables = direct_tables(pd);
    lemma_opening_sizes(params, z, data);
    lemma2_to64();
    assert(proof_messages(out.ring_switches@) =~= messages);
    assert(tables =~= Seq::new(pd.len(), |k: int| eq_table(pd[k].point@))) by {
        assert forall|k: int| 0 <= k < pd.len() implies tables[k] == eq_table(pd[k].point@) by {
            assert(pd[k].value == mle(z, pd[k].point@));
        }
    }
    assert forall|k: int| 0 <= k < xs.len() implies #[trigger] messages[k] == partial_evaluations(
        z,
        eq_table(tail(xs[k])),
    ) by {
        if given(precomputed, k) is Some {
            assert(given(precomputed, k)->Some_0 == partial_evaluations(z, eq_table(tail(xs[k]))));
        }
    }
    assert forall|k: int| 0 <= k < xs.len() implies (#[trigger] xs[k]).len() >= 1 && z.len()
        == pow2((xs[k].len() - 1) as nat) by {
        assert(x_outers[k]@.len() == params.msg_log() + 1);
    }
    assert forall|k: int| 0 <= k < xs.len() implies (#[trigger] bc.weights[k]).len() == 128 by {
        let st = switched_state::<Ch>(s0, messages, k as nat);
        Ch::lemma_challenge_count(
            Ch::after_f128_slice(Ch::after_label(st, ring_switch_label()), messages[k]),
            7,
        );
    }
    assert forall|k: int| 0 <= k < tables.len() implies (#[trigger] tables[k]).len() == z.len()
        && dot(z, tables[k]) == values[k] by {
        assert(pd[k].value == mle(z, pd[k].point@));
    }
    lemma_messages_pass(z, messages, z_skips, xs, 0);
    lemma_combined_target(bc, z, messages, xs, tables, values);
    let b = combined(claim_tables(bc, xs, tables), z.len());
    lemma_basefold_part_passes::<Ch>(
        bc.state,
        end,
        out.basefold,
        z,
        b,
        Some(low_message(z, b)),
        commitment,
        data,
        ntt,
    );
}

/// The rounds that the verifier of a batch replays, for the given packed-direct values.
pub open spec fn batch_rounds<Ch: Challenger>(
    s: Ch::State,
    out: BatchOpeningProof,
    params: PcsParams,
    values: Seq<F128>,
) -> CheckedRounds<Ch::State> {
    let messages = proof_messages(out.ring_switches@);
    let bc = batch_challenges::<Ch>(Ch::after_label(s, batch_label()), messages, values);
    let n = out.basefold.round_messages@.len();
    replayed::<Ch>(
        Ch::after_label(bc.state, basefold_label()),
        out.basefold,
        code_of(n as int, params.log_inv_rate as int, params.log_batch_size as int),
        total(claim_targets(bc, messages, values)),
        n,
    )
}

/// The verdict on a batch with one packed-direct value replaced by another: `rounds` are the
/// rounds replayed for the new values, under the challenges that the new values give.
/// Where they do not end at `final_a · final_b`, the end of the sumcheck is rejected. No
/// error comes but one of the BaseFold part or of the value of the combined table, and
/// the proof passes only where both the end of the sumcheck and that value agree with it.
pub open spec fn other_value_verdict<Ch: Challenger>(
    s: Ch::State,
    params: PcsParams,
    xs: Seq<Seq<F128>>,
    tables: Seq<Seq<F128>>,
    values: Seq<F128>,
    out: BatchOpeningProof,
    result: Result<(), VerifyError>,
) -> bool {
    let rounds = batch_rounds::<Ch>(s, out, params, values);
    let bc = batch_challenges::<Ch>(
        Ch::after_label(s, batch_label()),
        proof_messages(out.ring_switches@),
        values,
    );
    let ends = rounds.target == out.basefold.final_a * out.basefold.final_b;
    let b = combined(claim_tables(bc, xs, tables), pow2(params.msg_log()));
    let agrees = mle(b, rounds.challenges) == out.basefold.final_b;
    &&& !ends ==> result == Err::<(), VerifyError>(
        VerifyError::BaseFold(basefold::VerifyError::SumcheckFinalMismatch),
    )
    &&& result matches Err(e) ==> e is FinalBMismatch || e is BaseFold
    &&& result is Ok ==> ends && agrees
}

/// An accepted proof is held to its values, whatever the challenger: where a proof is
/// accepted, the same proof with another value of a packed-direct claim is rejected at the
/// end of the sumcheck unless the target, replayed under the challenges that the other value
/// gives, is `final_a · final_b`.
pub proof fn lemma_other_value_is_rejected<Ch: Challenger>(
    s: Ch::State,
    commitment: Commitment,
    claims: Seq<F128>,
    z_skips: Seq<F128>,
    xs: Seq<Seq<F128>>,
    tables: Seq<Seq<F128>>,
    values: Seq<F128>,
    out: BatchOpeningProof,
    k: int,
    other: F128,
    ntt: &AdditiveNttF128,
)
    requires
        0 <= k < values.len(),
        mixed_verdict::<Ch>(
            s,
            commitment,
            claims,
            z_skips,
            xs,
            tables,
            values,
            out,
            ntt,
        ).result is Ok,
    ensures
        other_value_verdict::<Ch>(
            s,
            commitment.params,
            xs,
            tables,
            values.update(k, other),
            out,
            mixed_verdict::<Ch>(
                s,
                commitment,
                claims,
                z_skips,
                xs,
                tables,
                values.update(k, other),
                out,
                ntt,
            ).result,
        ),
{
    let params = commitment.params;
    let messages = proof_messages(out.ring_switches@);
    let others = values.update(k, other);
    let bo = batch_challenges::<Ch>(Ch::after_label(s, batch_label()), messages, others);
    let n = out.basefold.round_messages@.len();
    let c = code_of(n as int, params.log_inv_rate as int, params.log_batch_size as int);
    assert(c.rounds() == n);
    let v = basefold::check::proof_verdict::<Ch>(
        bo.state,
        total(claim_targets(bo, messages, others)),
        out.basefold,
        commitment.root@,
        ntt,
        params.log_inv_rate as nat,
        params.log_batch_size as nat,
    );
    assert(v.result matches Ok(ch) ==> ch == batch_rounds::<Ch>(s, out, params, others).challenges);
}

/// An honest batch opening is accepted with the values of the witness, and is held to them:
/// with another value of a packed-direct claim it is rejected unless the end of its
/// sumcheck and the value of its combined table both agree with the replayed rounds.
pub proof fn lemma_honest_opening_binds_values<Ch: Challenger>(
    s: Ch::State,
    end: Ch::State,
    out: BatchOpeningProof,
    z: Seq<F128>,
    commitment: Commitment,
    data: ProverData,
    x_outers: Seq<&[F128]>,
    z_skips: Seq<F128>,
    precomputed: Seq<Option<&[F128]>>,
    pd: Seq<PackedDirectClaim>,
    padding: PaddingSpec,
    k: int,
    other: F128,
    ntt: AdditiveNttF128,
)
    requires
        committed(z, commitment, data),
        forall|i: int|
            0 <= i < x_outers.len() ==> (#[trigger] x_outers[i])@.len()
                == commitment.params.msg_log() + 1,
        given_messages_hold(z, views(x_outers), precomputed),
        direct_claims_hold(z, pd),
        kept(z, padding) == z,
        batch_opened::<Ch>(
            s,
            end,
            out,
            z,
            data,
            commitment.params,
            x_outers,
            precomputed,
            pd,
            padding,
        ),
        is_standard(ntt, commitment.params.code_dim()),
        0 <= k < pd.len(),
    ensures
        ({
            let xs = views(x_outers);
            let tables = Seq::new(pd.len(), |q: int| eq_table(pd[q].point@));
            let values = direct_values(pd);
            let others = values.update(k, other);
            let verdict_on = |w: Seq<F128>|
                mixed_verdict::<Ch>(
                    s,
                    commitment,
                    bit_claims(z, z_skips, xs),
                    z_skips,
                    xs,
                    tables,
                    w,
                    out,
                    &ntt,
                ).result;
            &&& verdict_on(values) is Ok
            &&& other_value_verdict::<Ch>(
                s,
                commitment.params,
                xs,
                tables,
                others,
                out,
                verdict_on(others),
            )
        }),
{
    lemma_batch_opening_is_accepted::<Ch>(
        s,
        end,
        out,
        z,
        commitment,
        data,
        x_outers,
        z_skips,
        precomputed,
        pd,
        padding,
        ntt,
    );
    lemma_other_value_is_rejected::<Ch>(
        s,
        commitment,
        bit_claims(z, z_skips, views(x_outers)),
        z_skips,
        views(x_outers),
        Seq::new(pd.len(), |q: int| eq_table(pd[q].point@)),
        direct_values(pd),
        out,
        k,
        other,
        &ntt,
    );
}

/// Where the challenges do not tell two values of a packed-direct claim apart, the sumcheck
/// does: a proof that is accepted for the one is rejected for the other, as far as the
/// verifier's challenges are the same and neither the coefficient of the claim nor a
/// challenge of a round is zero.
pub proof fn lemma_same_challenges_separate_values<Ch: Challenger>(
    s: Ch::State,
    commitment: Commitment,
    claims: Seq<F128>,
    z_skips: Seq<F128>,
    xs: Seq<Seq<F128>>,
    tables: Seq<Seq<F128>>,
    values: Seq<F128>,
    out: BatchOpeningProof,
    k: int,
    other: F128,
    ntt: &AdditiveNttF128,
)
    requires
        0 <= k < values.len(),
        other != values[k],
        mixed_verdict::<Ch>(
            s,
            commitment,
            claims,
            z_skips,
            xs,
            tables,
            values,
            out,
            ntt,
        ).result is Ok,
        ({
            let s0 = Ch::after_label(s, batch_label());
            let messages = proof_messages(out.ring_switches@);
            let gammas = batch_challenges::<Ch>(s0, messages, values).gammas;
            &&& gammas[messages.len() + k] != F128::zero()
            &&& batch_challenges::<Ch>(s0, messages, values.update(k, other)).gammas == gammas
        }),
        ({
            let params = commitment.params;
            let ch = batch_rounds::<Ch>(s, out, params, values).challenges;
            &&& forall|i: int| 0 <= i < ch.len() ==> #[trigger] ch[i] != F128::zero()
            &&& batch_rounds::<Ch>(s, out, params, values.update(k, other)).challenges == ch
        }),
    ensures
        mixed_verdict::<Ch>(
            s,
            commitment,
            claims,
            z_skips,
            xs,
            tables,
            values.update(k, other),
            out,
            ntt,
        ).result == Err::<(), VerifyError>(
            VerifyError::BaseFold(basefold::VerifyError::SumcheckFinalMismatch),
        ),
{
    let params = commitment.params;
    let s0 = Ch::after_label(s, batch_label());
    let messages = proof_messages(out.ring_switches@);
    let others = values.update(k, other);
    let bc = batch_challenges::<Ch>(s0, messages, values);
    let bo = batch_challenges::<Ch>(s0, messages, others);
    let (x, y) = (claim_targets(bc, messages, values), claim_targets(bo, messages, others));
    let at = messages.len() + k;
    let g = bc.gammas[at];
    let (f, h) = (|i: int| x[i], |i: int| y[i]);
    assert(bc.weights =~= bo.weights);
    // The targets differ by the coefficient times the difference of the values.
    let d = values[k] + other;
    lemma_mul_distributes(g, values[k], d);
    lemma_add_rules(values[k], other, other, other);
    assert(h(at) == f(at) + g * d);
    assert forall|i: int| 0 <= i < x.len() && i != at implies #[trigger] h(i) == f(i) by {
        if i >= messages.len() {
            assert(others[i - messages.len()] == values[i - messages.len()]);
        }
    }
    lemma_sum_update(x.len(), f, h, at, g * d);
    let (tx, ty) = (total(x), total(y));
    assert(tx != ty) by {
        if tx == ty {
            lemma_add_rules(tx, g * d, g * d, g * d);
            lemma_add_rules(tx, tx, g * d, g * d);
            assert(g * d == F128::zero());
            lemma_no_zero_divisors(g, d);
            lemma_add_rules(values[k], other, other, other);
            lemma_add_rules(other, other, other, other);
        }
    }
    let n = out.basefold.round_messages@.len();
    let c = code_of(n as int, params.log_inv_rate as int, params.log_batch_size as int);
    let states = (
        Ch::after_label(bc.state, basefold_label()),
        Ch::after_label(bo.state, basefold_label()),
    );
    lemma_replayed_prefix::<Ch>(states.0, out.basefold, c, tx, n, n);
    lemma_rounds_separate::<Ch>(states, out.basefold, c, (tx, ty), n);
}

/// The openings hold the same values.
pub open spec fn same_batch_opening(x: BatchOpeningProof, y: BatchOpeningProof) -> bool {
    &&& x.ring_switches@.len() == y.ring_switches@.len()
    &&& forall|i: int|
        0 <= i < x.ring_switches@.len() ==> (#[trigger] x.ring_switches@[i]).s_hat_v@
            == y.ring_switches@[i].s_hat_v@
    &&& same_proof(x.basefold, y.basefold)
}

/// A padded opening of a witness that is zero where the padding says so is the dense
/// opening: both provers, started in the same state, give the same proof, with one
/// ring-switching message per point, and end in the same state.
pub proof fn lemma_padded_opening_is_dense<Ch: Challenger>(
    s: Ch::State,
    ends: (Ch::State, Ch::State),
    outs: (BatchOpeningProof, BatchOpeningProof),
    z: Seq<F128>,
    data: ProverData,
    params: PcsParams,
    x_outers: Seq<&[F128]>,
    precomputed: Seq<Option<&[F128]>>,
    pd: Seq<PackedDirectClaim>,
    padding: PaddingSpec,
)
    requires
        params.m >= 7,
        pow2(params.m as nat) <= usize::MAX,
        forall|j: int| 0 <= j < z.len() && !padding.live(j) ==> #[trigger] z[j] == F128::zero(),
        batch_opened::<Ch>(
            s,
            ends.0,
            outs.0,
            z,
            data,
            params,
            x_outers,
            precomputed,
            pd,
            padding,
        ),
        batch_opened::<Ch>(
            s,
            ends.1,
            outs.1,
            z,
            data,
            params,
            x_outers,
            precomputed,
            pd,
            dense_padding(params.m),
        ),
    ensures
        same_batch_opening(outs.0, outs.1),
        ends.0 == ends.1,
        outs.0.ring_switches@.len() == x_outers.len(),
{
    let dense = dense_padding(params.m);
    lemma_dense_is_live(params.m);
    lemma_padding_is_immaterial(z, padding);
    lemma_padding_is_immaterial(z, dense);
    let xs = views(x_outers);
    let messages = claim_messages(z, padding, xs, precomputed);
    assert(messages =~= claim_messages(z, dense, xs, precomputed));
    let bc = batch_challenges::<Ch>(
        Ch::after_label(s, batch_label()),
        messages,
        direct_values(pd),
    );
    let b = combined(claim_tables(bc, xs, direct_tables(pd)), z.len());
    let prime = Some(low_message(z, b));
    let n = query_count(params.log_inv_rate as nat);
    let x = choose|ntt: AdditiveNttF128|
        #[trigger] is_standard(ntt, params.code_dim()) && honest_run::<Ch>(
            bc.state,
            ends.0,
            outs.0.basefold,
            &ntt,
            data.codeword@,
            data.merkle_tree@,
            code(params),
            z,
            b,
            prime,
            n,
        );
    let y = choose|ntt: AdditiveNttF128|
        #[trigger] is_standard(ntt, params.code_dim()) && honest_run::<Ch>(
            bc.state,
            ends.1,
            outs.1.basefold,
            &ntt,
            data.codeword@,
            data.merkle_tree@,
            code(params),
            z,
            b,
            prime,
            n,
        );
    lemma_run_is_determined::<Ch>(
        bc.state,
        ends,
        (outs.0.basefold, outs.1.basefold),
        &x,
        &y,
        data.codeword@,
        data.merkle_tree@,
        code(params),
        z,
        b,
        prime,
        n,
    );
    assert forall|i: int| 0 <= i < xs.len() implies (#[trigger] outs.0.ring_switches@[i]).s_hat_v@
        == outs.1.ring_switches@[i].s_hat_v@ by {
        assert(outs.1.ring_switches@[i].s_hat_v@ == messages[i]);
    }
}

} // verus!
