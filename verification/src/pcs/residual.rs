//! What a recursive backend asks of a reduced batch of claims.
//!
//! A backend that proves the combined claim by recursion binds the first variables
//! of the combined table to its challenges and compares the rest, position by
//! position, with a short vector that it received in the clear. The backend runs
//! between three steps that stand here: [`verify_opening_batch_ligerito_mixed`] checks
//! the ring-switching messages and reduces the batch to the claim that the backend is
//! to verify; [`ReducedClaims::residual_values`] answers its one question about the
//! table; [`backend_verdict`] turns its answer into that of the opening. On the
//! prover's side, [`open_batch_mixed_ligerito_with_precomputed_s_hat_v`] makes the claim
//! that the backend is to prove, and [`with_backend_proof`] puts the opening together.
use vstd::arithmetic::power2::{lemma_pow2_pos, pow2};
use vstd::prelude::*;
use vstd::slice::slice_subrange;
use crate::algebra::sum;
use crate::challenger::Challenger;
use crate::field::gf2_128::{lemma_mul_associates, lemma_mul_units};
use crate::field::F128;
use crate::index::{lemma_pow2_fits, pow2_usize};
use crate::pcs::basefold;
use crate::pcs::combine::{
    batch_challenges, batch_label, claim_tables, claim_targets, combine_inputs_fit, combined,
    compute_combined_basis_and_target, direct_tables, direct_values, total, CombinedClaim,
    PackedDirectClaim,
};
use crate::pcs::commit::Commitment;
use crate::pcs::fold::low_message;
use crate::pcs::open::BatchOpeningProofLigerito;
use crate::pcs::pack::LOG_PACKING;
use crate::pcs::ring_switch::batch::{claim_messages, switched_state, views};
use crate::pcs::ring_switch::tail;
use crate::pcs::ring_switch::tensor::{
    bit_values, bits_as_field, eval_rs_eq_finish_from_prefix_binary_q, eval_rs_eq_prefix,
};
use crate::pcs::ring_switch::partial_evaluations;
use crate::pcs::verify::{
    first_switch_error, lemma_table_value, points_fit, proof_messages, reduce_claims, ref_tables,
    ref_values, PackedDirectClaimRef, ReducedClaims, VerifyError,
};
use crate::zerocheck::multilinear::{eq_eval, eq_table, lemma_eq_eval_push, mle};
use crate::zerocheck::PaddingSpec;

verus! {

/// The value of a table of weights at a point is a product over the coordinates, so
/// it splits where the coordinates do.
pub proof fn lemma_eq_eval_append(x: Seq<F128>, y: Seq<F128>, a: Seq<F128>, b: Seq<F128>)
    requires
        x.len() == y.len(),
        a.len() == b.len(),
    ensures
        mle(eq_table(x + a), y + b) == mle(eq_table(x), y) * mle(eq_table(a), b),
    decreases a.len(),
{
    if a.len() == 0 {
        assert(x + a =~= x);
        assert(y + b =~= y);
        assert(a =~= Seq::<F128>::empty() && b =~= Seq::<F128>::empty());
        crate::zerocheck::multilinear::lemma_eq_eval_empty();
        lemma_mul_units(mle(eq_table(x), y));
    } else {
        let (a0, b0) = (a.drop_last(), b.drop_last());
        let (al, bl) = (a.last(), b.last());
        lemma_eq_eval_append(x, y, a0, b0);
        lemma_eq_eval_push(x + a0, y + b0, al, bl);
        lemma_eq_eval_push(a0, b0, al, bl);
        assert((x + a0).push(al) =~= x + a);
        assert((y + b0).push(bl) =~= y + b);
        assert(a0.push(al) =~= a);
        assert(b0.push(bl) =~= b);
        lemma_mul_associates(
            mle(eq_table(x), y),
            mle(eq_table(a0), b0),
            F128::one() + al + bl,
        );
    }
}

impl ReducedClaims {
    /// The tensors of the first coordinates of the ring-switched claims' points.
    fn claim_prefixes(&self, x_outers: &[&[F128]], ris: &[F128]) -> (prefixes: Vec<Vec<F128>>)
        requires
            forall|i: int|
                0 <= i < x_outers@.len() ==> (#[trigger] x_outers@[i])@.len() > ris@.len(),
        ensures
            prefixes@.len() == x_outers@.len(),
            forall|i: int|
                0 <= i < x_outers@.len() ==> (#[trigger] prefixes@[i])@ == partial_evaluations(
                    eq_table(x_outers@[i]@.subrange(1, 1 + ris@.len() as int)),
                    eq_table(ris@),
                ) && prefixes@[i]@.len() == 128,
    {
        let n: usize = x_outers.len();
        let p: usize = ris.len();
        let mut prefixes: Vec<Vec<F128>> = Vec::with_capacity(n);
        let mut i: usize = 0;
        while i < n
            invariant
                i <= n,
                n == x_outers@.len(),
                p == ris@.len(),
                forall|i: int|
                    0 <= i < x_outers@.len() ==> (#[trigger] x_outers@[i])@.len() > ris@.len(),
                prefixes@.len() == i,
                forall|q: int|
                    0 <= q < i ==> (#[trigger] prefixes@[q])@ == partial_evaluations(
                        eq_table(x_outers@[q]@.subrange(1, 1 + ris@.len() as int)),
                        eq_table(ris@),
                    ) && prefixes@[q]@.len() == 128,
            decreases n - i,
        {
            assert(x_outers@[i as int]@.len() > ris@.len());
            let x_outer = x_outers[i];
            let len: usize = x_outer.len();
            prefixes.push(eval_rs_eq_prefix(slice_subrange(x_outer, 1, 1 + p), ris));
            i = i + 1;
        }
        prefixes
    }

    /// The values of the packed-direct claims' tables on the first coordinates.
    fn direct_prefixes(&self, packed_direct: &[PackedDirectClaimRef], ris: &[F128]) -> (scalars:
        Vec<F128>)
        requires
            forall|k: int|
                0 <= k < packed_direct@.len() ==> (#[trigger] packed_direct@[k]).point@.len()
                    >= ris@.len(),
        ensures
            scalars@.len() == packed_direct@.len(),
            forall|k: int|
                0 <= k < packed_direct@.len() ==> #[trigger] scalars@[k] == mle(
                    eq_table(packed_direct@[k].point@.subrange(0, ris@.len() as int)),
                    ris@,
                ),
    {
        let n: usize = packed_direct.len();
        let p: usize = ris.len();
        let mut scalars: Vec<F128> = Vec::with_capacity(n);
        let mut k: usize = 0;
        while k < n
            invariant
                k <= n,
                n == packed_direct@.len(),
                p == ris@.len(),
                forall|k: int|
                    0 <= k < packed_direct@.len() ==> (#[trigger] packed_direct@[k]).point@.len()
                        >= ris@.len(),
                scalars@.len() == k,
                forall|q: int|
                    0 <= q < k ==> #[trigger] scalars@[q] == mle(
                        eq_table(packed_direct@[q].point@.subrange(0, ris@.len() as int)),
                        ris@,
                    ),
            decreases n - k,
        {
            assert(packed_direct@[k as int].point@.len() >= ris@.len());
            scalars.push(eq_eval(slice_subrange(packed_direct[k].point, 0, p), ris));
            k = k + 1;
        }
        scalars
    }

    /// The value of the combined table at `ris` and the bits of `y`, from the parts
    /// that belong to `ris`.
    fn residual_value(
        &self,
        x_outers: &[&[F128]],
        packed_direct: &[PackedDirectClaimRef],
        ris: &[F128],
        yr_log_n: usize,
        prefixes: &Vec<Vec<F128>>,
        scalars: &Vec<F128>,
        y: usize,
    ) -> (r: F128)
        requires
            self.fits(views(x_outers@), packed_direct@, (ris@.len() + yr_log_n) as nat),
            yr_log_n < usize::BITS,
            prefixes@.len() == x_outers@.len(),
            forall|i: int|
                0 <= i < x_outers@.len() ==> (#[trigger] prefixes@[i])@ == partial_evaluations(
                    eq_table(x_outers@[i]@.subrange(1, 1 + ris@.len() as int)),
                    eq_table(ris@),
                ) && prefixes@[i]@.len() == 128,
            scalars@.len() == packed_direct@.len(),
            forall|k: int|
                0 <= k < packed_direct@.len() ==> #[trigger] scalars@[k] == mle(
                    eq_table(packed_direct@[k].point@.subrange(0, ris@.len() as int)),
                    ris@,
                ),
        ensures
            r == self.value_at(
                views(x_outers@),
                ref_tables(packed_direct@),
                ris@ + bit_values(y as nat, yr_log_n as nat),
            ),
    {
        let ghost xs = views(x_outers@);
        let ghost tables = ref_tables(packed_direct@);
        let ghost ch = ris@ + bit_values(y as nat, yr_log_n as nat);
        let ghost terms = self.claim_values(xs, tables, ch);
        let ghost f = |k: int| terms[k];
        let n_rs: usize = x_outers.len();
        let n_pd: usize = packed_direct.len();
        let p: usize = ris.len();
        let mut acc = F128::zero();
        let mut i: usize = 0;
        while i < n_rs
            invariant
                i <= n_rs,
                n_rs == x_outers@.len(),
                p == ris@.len(),
                yr_log_n < usize::BITS,
                xs == views(x_outers@),
                self.fits(xs, packed_direct@, (ris@.len() + yr_log_n) as nat),
                ch == ris@ + bit_values(y as nat, yr_log_n as nat),
                terms == self.claim_values(xs, tables, ch),
                f == (|k: int| terms[k]),
                prefixes@.len() == x_outers@.len(),
                forall|i: int|
                    0 <= i < x_outers@.len() ==> (#[trigger] prefixes@[i])@ == partial_evaluations(
                        eq_table(x_outers@[i]@.subrange(1, 1 + ris@.len() as int)),
                        eq_table(ris@),
                    ) && prefixes@[i]@.len() == 128,
                acc == sum(i as nat, f),
            decreases n_rs - i,
        {
            assert(xs[i as int].len() == p + yr_log_n + 1);
            assert(self.eq_r_dprimes@[i as int]@.len() == 128);
            assert(prefixes@[i as int]@.len() == 128);
            let x_outer = x_outers[i];
            let len: usize = x_outer.len();
            let rest = slice_subrange(x_outer, 1 + p, len);
            let v = eval_rs_eq_finish_from_prefix_binary_q(
                &prefixes[i],
                rest,
                y,
                &self.eq_r_dprimes[i],
            );
            proof {
                let front = x_outer@.subrange(1, 1 + p as int);
                assert(front + rest@ =~= tail(xs[i as int]));
                assert(prefixes@[i as int]@ == partial_evaluations(
                    eq_table(front),
                    eq_table(ris@),
                ));
                assert(sum((i + 1) as nat, f) == sum(i as nat, f) + f(i as int));
            }
            acc = acc + self.gammas_rs[i] * v;
            i = i + 1;
        }
        let suffix = bits_as_field(y, yr_log_n);
        let mut k: usize = 0;
        while k < n_pd
            invariant
                k <= n_pd,
                n_pd == packed_direct@.len(),
                n_rs == xs.len(),
                p == ris@.len(),
                suffix@ == bit_values(y as nat, yr_log_n as nat),
                self.fits(xs, packed_direct@, (ris@.len() + yr_log_n) as nat),
                tables == ref_tables(packed_direct@),
                ch == ris@ + bit_values(y as nat, yr_log_n as nat),
                terms == self.claim_values(xs, tables, ch),
                f == (|k: int| terms[k]),
                scalars@.len() == packed_direct@.len(),
                forall|k: int|
                    0 <= k < packed_direct@.len() ==> #[trigger] scalars@[k] == mle(
                        eq_table(packed_direct@[k].point@.subrange(0, ris@.len() as int)),
                        ris@,
                    ),
                acc == sum((n_rs + k) as nat, f),
            decreases n_pd - k,
        {
            assert(packed_direct@[k as int].point@.len() == p + yr_log_n);
            let point = packed_direct[k].point;
            let len: usize = point.len();
            let rest = slice_subrange(point, p, len);
            let s = eq_eval(rest, &suffix);
            proof {
                let front = point@.subrange(0, p as int);
                assert(front + rest@ =~= point@);
                lemma_eq_eval_append(front, ris@, rest@, suffix@);
                lemma_mul_associates(self.gammas_pd@[k as int], scalars@[k as int], s);
                assert(sum((n_rs + k + 1) as nat, f) == sum((n_rs + k) as nat, f) + f(n_rs + k));
            }
            acc = acc + self.gammas_pd[k] * scalars[k] * s;
            k = k + 1;
        }
        acc
    }

    /// The values of the combined table at `ris` followed by the bits of each of the
    /// `2^yr_log_n` positions. What belongs to `ris` is computed once per claim.
    pub fn residual_values(
        &self,
        x_outers: &[&[F128]],
        packed_direct: &[PackedDirectClaimRef],
        ris: &[F128],
        yr_log_n: usize,
    ) -> (r: Vec<F128>)
        requires
            self.fits(views(x_outers@), packed_direct@, (ris@.len() + yr_log_n) as nat),
            pow2(yr_log_n as nat) <= usize::MAX,
        ensures
            r@.len() == pow2(yr_log_n as nat),
            forall|y: int|
                0 <= y < r@.len() ==> #[trigger] r@[y] == self.value_at(
                    views(x_outers@),
                    ref_tables(packed_direct@),
                    ris@ + bit_values(y as nat, yr_log_n as nat),
                ),
    {
        proof {
            lemma_pow2_fits(yr_log_n as nat);
            lemma_pow2_pos(yr_log_n as nat);
            assert forall|i: int| 0 <= i < x_outers@.len() implies (#[trigger] x_outers@[i])@.len()
                > ris@.len() by {
                assert(views(x_outers@)[i].len() == ris@.len() + yr_log_n + 1);
            }
        }
        let yr_len: usize = pow2_usize(yr_log_n);
        let prefixes = self.claim_prefixes(x_outers, ris);
        let scalars = self.direct_prefixes(packed_direct, ris);
        let mut out: Vec<F128> = Vec::with_capacity(yr_len);
        let mut y: usize = 0;
        while y < yr_len
            invariant
                y <= yr_len,
                yr_log_n < usize::BITS,
                self.fits(views(x_outers@), packed_direct@, (ris@.len() + yr_log_n) as nat),
                prefixes@.len() == x_outers@.len(),
                forall|i: int|
                    0 <= i < x_outers@.len() ==> (#[trigger] prefixes@[i])@ == partial_evaluations(
                        eq_table(x_outers@[i]@.subrange(1, 1 + ris@.len() as int)),
                        eq_table(ris@),
                    ) && prefixes@[i]@.len() == 128,
                scalars@.len() == packed_direct@.len(),
                forall|k: int|
                    0 <= k < packed_direct@.len() ==> #[trigger] scalars@[k] == mle(
                        eq_table(packed_direct@[k].point@.subrange(0, ris@.len() as int)),
                        ris@,
                    ),
                out@.len() == y,
                forall|q: int|
                    0 <= q < y ==> #[trigger] out@[q] == self.value_at(
                        views(x_outers@),
                        ref_tables(packed_direct@),
                        ris@ + bit_values(q as nat, yr_log_n as nat),
                    ),
            decreases yr_len - y,
        {
            let v = self.residual_value(
                x_outers,
                packed_direct,
                ris,
                yr_log_n,
                &prefixes,
                &scalars,
                y,
            );
            out.push(v);
            y = y + 1;
        }
        out
    }
}

/// The claim that is left to the backend: the inner product of the committed message,
/// of `2^log_n` elements, and the combined table is the combined target.
#[derive(Clone, Debug)]
pub struct BackendClaim {
    pub log_n: usize,
    pub reduced: ReducedClaims,
}

/// The part of a mixed-claim batched opening that comes before a recursive backend: the
/// ring-switching messages, and the combined claim that the backend is to prove. The
/// backend starts from the committed codeword, so its first folding factor and its first
/// rate are those of the commitment.
pub fn open_batch_mixed_ligerito_with_precomputed_s_hat_v<Ch: Challenger>(
    packed_witness: &[F128],
    commitment: &Commitment,
    x_outers: &[&[F128]],
    precomputed_s_hat_v: &[Option<&[F128]>],
    packed_direct: &[PackedDirectClaim],
    padding: &PaddingSpec,
    initial_k: usize,
    initial_log_inv_rate: usize,
    challenger: &mut Ch,
) -> (out: CombinedClaim)
    requires
        initial_k == commitment.params.log_batch_size,
        initial_log_inv_rate == commitment.params.log_inv_rate,
        combine_inputs_fit(
            packed_witness@,
            x_outers@,
            precomputed_s_hat_v@,
            packed_direct@,
            *padding,
        ),
    ensures
        ({
            let s0 = Ch::after_label(old(challenger).state(), batch_label());
            let xs = views(x_outers@);
            let messages = claim_messages(packed_witness@, *padding, xs, precomputed_s_hat_v@);
            let values = direct_values(packed_direct@);
            let bc = batch_challenges::<Ch>(s0, messages, values);
            &&& out.ring_switches@.len() == xs.len()
            &&& forall|i: int|
                0 <= i < xs.len() ==> (#[trigger] out.ring_switches@[i]).s_hat_v@ == messages[i]
            &&& out.b_combined@ == combined(
                claim_tables(bc, xs, direct_tables(packed_direct@)),
                packed_witness@.len(),
            )
            &&& out.target_combined == total(claim_targets(bc, messages, values))
            &&& out.round0_prime == low_message(packed_witness@, out.b_combined@)
            &&& final(challenger).state() == bc.state
        }),
{
    compute_combined_basis_and_target(
        packed_witness,
        x_outers,
        precomputed_s_hat_v,
        packed_direct,
        padding,
        challenger,
    )
}

/// The opening whose combined claim the backend has proved.
pub fn with_backend_proof<L>(combined: CombinedClaim, ligerito: L) -> (out: BatchOpeningProofLigerito<
    L,
>)
    ensures
        out.ring_switches@ == combined.ring_switches@,
        out.ligerito == ligerito,
{
    BatchOpeningProofLigerito { ring_switches: combined.ring_switches, ligerito }
}

/// Verify the ring-switching part of a mixed-claim batched opening whose combined claim
/// is proved by a recursive backend, and hand on that claim. A wrong ring-switching
/// message is reported; the opening is verified if the backend accepts the claim.
pub fn verify_opening_batch_ligerito_mixed<Ch: Challenger, L>(
    commitment: &Commitment,
    claims: &[F128],
    z_skips: &[F128],
    x_outers: &[&[F128]],
    packed_direct: &[PackedDirectClaimRef],
    proof_in: &BatchOpeningProofLigerito<L>,
    challenger: &mut Ch,
) -> (r: Result<BackendClaim, VerifyError>)
    requires
        commitment.params.m >= LOG_PACKING,
        z_skips@.len() == claims@.len(),
        x_outers@.len() == claims@.len(),
        proof_in.ring_switches@.len() == claims@.len(),
        claims@.len() + packed_direct@.len() > 0,
        forall|i: int| 0 <= i < x_outers@.len() ==> (#[trigger] x_outers@[i])@.len() >= 1,
        first_switch_error(
            proof_messages(proof_in.ring_switches@),
            claims@,
            z_skips@,
            views(x_outers@),
            0,
        ) is None ==> points_fit(
            views(x_outers@),
            packed_direct@,
            commitment.params.msg_log(),
        ),
    ensures
        ({
            let s0 = Ch::after_label(old(challenger).state(), batch_label());
            let messages = proof_messages(proof_in.ring_switches@);
            let xs = views(x_outers@);
            let tables = ref_tables(packed_direct@);
            let values = ref_values(packed_direct@);
            match first_switch_error(messages, claims@, z_skips@, xs, 0) {
                Some((i, e)) => {
                    &&& r matches Err(VerifyError::RingSwitch(f)) && f == e
                    &&& final(challenger).state() == switched_state::<Ch>(s0, messages, i)
                },
                None => {
                    let bc = batch_challenges::<Ch>(s0, messages, values);
                    &&& r matches Ok(o) && {
                        &&& o.log_n == commitment.params.m - LOG_PACKING
                        &&& o.reduced.fits(xs, packed_direct@, o.log_n as nat)
                        &&& o.reduced.target_combined == total(claim_targets(bc, messages, values))
                        &&& forall|ch: Seq<F128>|
                            ch.len() == o.log_n ==> #[trigger] o.reduced.value_at(xs, tables, ch)
                                == mle(combined(claim_tables(bc, xs, tables), pow2(ch.len())), ch)
                    }
                    &&& final(challenger).state() == bc.state
                },
            }
        }),
{
    let log_n: usize = commitment.params.m - LOG_PACKING;
    let ghost s0 = Ch::after_label(challenger.state(), batch_label());
    let ghost messages = proof_messages(proof_in.ring_switches@);
    let ghost xs = views(x_outers@);
    let ghost bc = batch_challenges::<Ch>(s0, messages, ref_values(packed_direct@));
    match reduce_claims(
        claims,
        z_skips,
        x_outers,
        packed_direct,
        &proof_in.ring_switches,
        challenger,
    ) {
        Err(e) => Err(VerifyError::RingSwitch(e)),
        Ok(reduced) => {
            proof {
                assert(points_fit(xs, packed_direct@, log_n as nat));
                assert forall|i: int| 0 <= i < xs.len() implies (
                #[trigger] reduced.eq_r_dprimes@[i])@.len() == 128 by {
                    assert(bc.weights.len() == xs.len());
                    assert(reduced.eq_r_dprimes@[i]@ == bc.weights[i]);
                }
                assert(reduced.fits(xs, packed_direct@, log_n as nat));
                let tables = ref_tables(packed_direct@);
                assert forall|ch: Seq<F128>| ch.len() == log_n implies #[trigger] reduced.value_at(
                    xs,
                    tables,
                    ch,
                ) == mle(combined(claim_tables(bc, xs, tables), pow2(ch.len())), ch) by {
                    lemma_table_value(reduced, bc, xs, packed_direct@, ch);
                }
            }
            Ok(BackendClaim { log_n, reduced })
        },
    }
}

/// The answer to a batch whose combined claim a recursive backend has accepted or
/// refused.
pub fn backend_verdict(accepted: bool) -> (r: Result<(), VerifyError>)
    ensures
        accepted ==> r == Ok::<(), VerifyError>(()),
        !accepted ==> r == Err::<(), VerifyError>(
            VerifyError::BaseFold(basefold::VerifyError::InvalidProofShape),
        ),
{
    if accepted {
        Ok(())
    } else {
        Err(VerifyError::BaseFold(basefold::VerifyError::InvalidProofShape))
    }
}

} // verus!
