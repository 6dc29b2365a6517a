//! Opening a committed witness.
use vstd::arithmetic::power2::{lemma_pow2_unfold, pow2};
use vstd::prelude::*;
use crate::challenger::Challenger;
use crate::field::F128;
use crate::index::{lemma_log2, log2, power_of_two};
use crate::ntt::additive_ntt_f128::{evals_of, standard_basis, AdditiveNttF128};
use crate::pcs::basefold::prover::{code_of, prove, prove_with_precomputed_round0_prime};
use crate::pcs::basefold::{
    default_fri_queries, honest_run, query_count, BaseFoldProof, Code,
};
use crate::pcs::combine::{
    batch_challenges, batch_label, claim_tables, combine_inputs_fit, combined,
    compute_combined_basis_and_target, direct_tables, direct_values, PackedDirectClaim,
};
use crate::pcs::commit::{lemma_code_sizes, Commitment, PcsParams, ProverData};
use crate::pcs::fold::low_message;
use crate::pcs::ring_switch;
use crate::pcs::ring_switch::batch::{claim_messages, views};
use crate::pcs::ring_switch::{
    after_switch, partial_evaluations, switch_point, switched_table, tail, RingSwitchProof,
};
use crate::zerocheck::multilinear::eq_table;
use crate::zerocheck::{dense_padding, PaddingSpec};

verus! {

/// Composite opening proof: ring-switching message + BaseFold proof.
#[derive(Clone, Debug, PartialEq, Eq)]
pub struct OpeningProof {
    pub ring_switch: RingSwitchProof,
    pub basefold: BaseFoldProof,
}

/// Backend-agnostic batched opening proof; the proof of a recursive backend is of type `L`.
#[derive(Clone, Debug, PartialEq, Eq)]
pub enum BatchOpening<L> {
    BaseFold(BatchOpeningProof),
    Ligerito(BatchOpeningProofLigerito<L>),
}

/// Batched opening proof: one ring-switching message per opening point,
/// plus ONE shared BaseFold proof. The BaseFold runs on a random linear
/// combination of the per-point `rs_eq_ind` weights, so a single
/// sumcheck + FRI suffices to prove all opening claims.
#[derive(Clone, Debug, PartialEq, Eq)]
pub struct BatchOpeningProof {
    pub ring_switches: Vec<RingSwitchProof>,
    pub basefold: BaseFoldProof,
}

/// Batched opening proof with a recursive backend: the same ring-switching messages,
/// and that backend's proof, of type `L`, of the combined claim.
#[derive(Clone, Debug, PartialEq, Eq)]
pub struct BatchOpeningProofLigerito<L> {
    pub ring_switches: Vec<RingSwitchProof>,
    pub ligerito: L,
}

/// `flock-pcs-open-v0`.
pub open spec fn open_label() -> Seq<u8> {
    seq![
        0x66u8, 0x6c, 0x6f, 0x63, 0x6b, 0x2d, 0x70, 0x63, 0x73, 0x2d, 0x6f, 0x70, 0x65, 0x6e, 0x2d,
        0x76, 0x30,
    ]
}

/// The code of a commitment.
pub open spec fn code(params: PcsParams) -> Code {
    code_of(params.msg_log() as int, params.log_inv_rate as int, params.log_batch_size as int)
}

/// The transform over the standard basis of `2^dim` positions.
pub open spec fn is_standard(ntt: AdditiveNttF128, dim: nat) -> bool {
    &&& ntt.wf()
    &&& #[trigger] ntt.table() == evals_of(standard_basis(dim))
}

/// The parameters are those of an opening that can be proved: there is a
/// query count for the rate, and at least two lanes.
pub open spec fn opening_params(params: PcsParams) -> bool {
    &&& params.wf()
    &&& params.log_inv_rate == 1 || params.log_inv_rate == 2
    &&& params.log_batch_size >= 1
}

/// The witness and what was kept of its commitment fit the parameters.
pub open spec fn prover_data_fits(z: Seq<F128>, data: ProverData, params: PcsParams) -> bool {
    &&& z.len() == pow2(params.msg_log())
    &&& data.codeword@.len() == pow2(params.code_dim()) * pow2(params.log_batch_size as nat)
    &&& data.merkle_tree@.len() == 2 * pow2(params.code_dim()) - 1
}

/// The BaseFold part of an opening: the honest run, from state `s`, on the
/// witness and the table `b`.
pub open spec fn basefold_part<Ch: Challenger>(
    s: Ch::State,
    end: Ch::State,
    out: BaseFoldProof,
    z: Seq<F128>,
    b: Seq<F128>,
    prime: Option<(F128, F128)>,
    data: ProverData,
    params: PcsParams,
) -> bool {
    exists|ntt: AdditiveNttF128|
        #[trigger] is_standard(ntt, params.code_dim()) && honest_run::<Ch>(
            s,
            end,
            out,
            &ntt,
            data.codeword@,
            data.merkle_tree@,
            code(params),
            z,
            b,
            prime,
            query_count(params.log_inv_rate as nat),
        )
}

/// The dimensions of an opening.
pub proof fn lemma_opening_sizes(params: PcsParams, z: Seq<F128>, data: ProverData)
    requires
        opening_params(params),
        prover_data_fits(z, data, params),
    ensures
        code(params).k_code() == params.code_dim(),
        code(params).rounds() == params.msg_log(),
        code(params).lanes() == pow2(params.log_batch_size as nat),
        power_of_two(z.len()),
        log2(z.len()) == params.msg_log(),
        z.len() % 2 == 0,
        data.codeword@.len() <= usize::MAX,
        2 * pow2(params.code_dim()) <= usize::MAX,
        params.msg_log() >= 1,
{
    lemma_code_sizes(params);
    lemma_log2(params.msg_log());
    lemma_pow2_unfold(params.msg_log());
}

/// Open the committed witness at a zerocheck-style point `(z_skip, x_outer)`.
///
/// `packed_witness` is the same F_{2^128}-packed witness that was passed to
/// `commit` — caller must retain its own copy (it is NOT stored in
/// `ProverData`). `prover_data` is the output of `commit`. `x_outer` is the
/// multilinear portion of the QuirkyPoint with length `m − 6`.
pub fn open<Ch: Challenger>(
    packed_witness: &[F128],
    prover_data: &ProverData,
    commitment: &Commitment,
    x_outer: &[F128],
    challenger: &mut Ch,
) -> (out: OpeningProof)
    requires
        opening_params(commitment.params),
        prover_data_fits(packed_witness@, *prover_data, commitment.params),
        x_outer@.len() == commitment.params.msg_log() + 1,
    ensures
        ({
            let s = Ch::after_label(old(challenger).state(), open_label());
            let e = eq_table(tail(x_outer@));
            let message = partial_evaluations(packed_witness@, e);
            &&& out.ring_switch.s_hat_v@ == message
            &&& basefold_part::<Ch>(
                after_switch::<Ch>(s, message),
                final(challenger).state(),
                out.basefold,
                packed_witness@,
                switched_table(e, eq_table(switch_point::<Ch>(s, message))),
                None,
                *prover_data,
                commitment.params,
            )
        }),
{
    proof {
        lemma_opening_sizes(commitment.params, packed_witness@, *prover_data);
    }
    let label: [u8; 17] = [
        0x66, 0x6c, 0x6f, 0x63, 0x6b, 0x2d, 0x70, 0x63, 0x73, 0x2d, 0x6f, 0x70, 0x65, 0x6e, 0x2d,
        0x76, 0x30,
    ];
    assert(label@ =~= open_label());
    challenger.observe_label(&label);
    let (rs_proof, rs_output) = ring_switch::prove(packed_witness, x_outer, challenger);
    let ntt = AdditiveNttF128::standard(commitment.params.k_code());
    assert(is_standard(ntt, commitment.params.code_dim()));
    let bf_proof = prove(
        packed_witness,
        rs_output.rs_eq_ind,
        &prover_data.codeword,
        &prover_data.merkle_tree,
        &ntt,
        commitment.params.log_inv_rate,
        commitment.params.log_batch_size,
        default_fri_queries(commitment.params.log_inv_rate),
        challenger,
    );
    OpeningProof { ring_switch: rs_proof, basefold: bf_proof }
}

/// What a batched opening holds: the messages of the ring-switched claims and
/// the BaseFold run on the combined table.
pub open spec fn batch_opened<Ch: Challenger>(
    s: Ch::State,
    end: Ch::State,
    out: BatchOpeningProof,
    z: Seq<F128>,
    data: ProverData,
    params: PcsParams,
    x_outers: Seq<&[F128]>,
    precomputed: Seq<Option<&[F128]>>,
    pd: Seq<PackedDirectClaim>,
    padding: PaddingSpec,
) -> bool {
    let xs = views(x_outers);
    let messages = claim_messages(z, padding, xs, precomputed);
    let bc = batch_challenges::<Ch>(
        Ch::after_label(s, batch_label()),
        messages,
        direct_values(pd),
    );
    let b = combined(claim_tables(bc, xs, direct_tables(pd)), z.len());
    &&& out.ring_switches@.len() == xs.len()
    &&& forall|i: int|
        0 <= i < xs.len() ==> (#[trigger] out.ring_switches@[i]).s_hat_v@ == messages[i]
    &&& basefold_part::<Ch>(
        bc.state,
        end,
        out.basefold,
        z,
        b,
        Some(low_message(z, b)),
        data,
        params,
    )
}

/// Batched open at multiple points (`x_outers[0..n]`) against the same
/// commitment. Runs ring-switching once per point, then ONE BaseFold prove
/// on the random-linear-combination of the per-point `rs_eq_ind` weights.
pub fn open_batch<Ch: Challenger>(
    packed_witness: &[F128],
    prover_data: &ProverData,
    commitment: &Commitment,
    x_outers: &[&[F128]],
    challenger: &mut Ch,
) -> (out: BatchOpeningProof)
    requires
        opening_params(commitment.params),
        prover_data_fits(packed_witness@, *prover_data, commitment.params),
        x_outers@.len() > 0,
        forall|i: int|
            0 <= i < x_outers@.len() ==> (#[trigger] x_outers@[i])@.len()
                == commitment.params.msg_log() + 1,
        pow2(commitment.params.m as nat) <= usize::MAX,
    ensures
        batch_opened::<Ch>(
            old(challenger).state(),
            final(challenger).state(),
            out,
            packed_witness@,
            *prover_data,
            commitment.params,
            x_outers@,
            Seq::empty(),
            Seq::empty(),
            dense_padding(commitment.params.m),
        ),
{
    let padding = PaddingSpec::dense(commitment.params.m);
    open_batch_padded(packed_witness, prover_data, commitment, x_outers, &padding, challenger)
}

/// Padding-aware variant of [`open_batch`]. Threads `padding` into
/// ring-switching's bit-row fold so per-block padding chunks are skipped.
/// Byte-identical to the dense path on honestly zero-padded witnesses.
pub fn open_batch_padded<Ch: Challenger>(
    packed_witness: &[F128],
    prover_data: &ProverData,
    commitment: &Commitment,
    x_outers: &[&[F128]],
    padding: &PaddingSpec,
    challenger: &mut Ch,
) -> (out: BatchOpeningProof)
    requires
        opening_params(commitment.params),
        prover_data_fits(packed_witness@, *prover_data, commitment.params),
        x_outers@.len() > 0,
        forall|i: int|
            0 <= i < x_outers@.len() ==> (#[trigger] x_outers@[i])@.len()
                == commitment.params.msg_log() + 1,
        padding.wf(),
    ensures
        batch_opened::<Ch>(
            old(challenger).state(),
            final(challenger).state(),
            out,
            packed_witness@,
            *prover_data,
            commitment.params,
            x_outers@,
            Seq::empty(),
            Seq::empty(),
            *padding,
        ),
{
    let n_claims: usize = x_outers.len();
    let none: [PackedDirectClaim; 0] = [];
    assert(none@ =~= Seq::<PackedDirectClaim>::empty());
    open_batch_mixed(
        packed_witness,
        prover_data,
        commitment,
        x_outers,
        &none,
        padding,
        challenger,
    )
}

/// Variant of [`open_batch_padded`] that accepts a per-claim optional
/// precomputed `s_hat_v`. See [`open_batch_mixed_with_precomputed_s_hat_v`].
pub fn open_batch_padded_with_precomputed_s_hat_v<Ch: Challenger>(
    packed_witness: &[F128],
    prover_data: &ProverData,
    commitment: &Commitment,
    x_outers: &[&[F128]],
    precomputed_s_hat_v: &[Option<&[F128]>],
    padding: &PaddingSpec,
    challenger: &mut Ch,
) -> (out: BatchOpeningProof)
    requires
        opening_params(commitment.params),
        prover_data_fits(packed_witness@, *prover_data, commitment.params),
        combine_inputs_fit(
            packed_witness@,
            x_outers@,
            precomputed_s_hat_v@,
            Seq::empty(),
            *padding,
        ),
    ensures
        batch_opened::<Ch>(
            old(challenger).state(),
            final(challenger).state(),
            out,
            packed_witness@,
            *prover_data,
            commitment.params,
            x_outers@,
            precomputed_s_hat_v@,
            Seq::empty(),
            *padding,
        ),
{
    let none: [PackedDirectClaim; 0] = [];
    assert(none@ =~= Seq::<PackedDirectClaim>::empty());
    open_batch_mixed_with_precomputed_s_hat_v(
        packed_witness,
        prover_data,
        commitment,
        x_outers,
        precomputed_s_hat_v,
        &none,
        padding,
        challenger,
    )
}

/// Mixed-claim batched open: supports both **ring-switched** claims (bit-MLE
/// openings reduced via ring-switching) and **packed-direct** claims
/// (packed-MLE openings that skip ring-switching and contribute directly to
/// BaseFold).
///
/// Transcript order: label → ring-switched claims (each: label + `s_hat_v_i` +
/// sample `r_dprime_i`) → packed-direct claims (each: `value_k` observed) →
/// sample γ's (one per total claim, ring-switched first) → BaseFold.
pub fn open_batch_mixed<Ch: Challenger>(
    packed_witness: &[F128],
    prover_data: &ProverData,
    commitment: &Commitment,
    x_outers: &[&[F128]],
    packed_direct: &[PackedDirectClaim],
    padding: &PaddingSpec,
    challenger: &mut Ch,
) -> (out: BatchOpeningProof)
    requires
        opening_params(commitment.params),
        prover_data_fits(packed_witness@, *prover_data, commitment.params),
        x_outers@.len() + packed_direct@.len() > 0,
        x_outers@.len() + packed_direct@.len() <= usize::MAX,
        forall|i: int|
            0 <= i < x_outers@.len() ==> (#[trigger] x_outers@[i])@.len()
                == commitment.params.msg_log() + 1,
        forall|k: int|
            0 <= k < packed_direct@.len() ==> (#[trigger] packed_direct@[k]).fits(
                packed_witness@.len(),
            ),
        padding.wf(),
    ensures
        batch_opened::<Ch>(
            old(challenger).state(),
            final(challenger).state(),
            out,
            packed_witness@,
            *prover_data,
            commitment.params,
            x_outers@,
            Seq::empty(),
            packed_direct@,
            *padding,
        ),
{
    let none: [Option<&[F128]>; 0] = [];
    proof {
        assert(none@ =~= Seq::<Option<&[F128]>>::empty());
        lemma_opening_sizes(commitment.params, packed_witness@, *prover_data);
    }
    open_batch_mixed_with_precomputed_s_hat_v(
        packed_witness,
        prover_data,
        commitment,
        x_outers,
        &none,
        packed_direct,
        padding,
        challenger,
    )
}

/// Variant of [`open_batch_mixed`] that accepts a per-ring-switched-claim
/// optional precomputed `s_hat_v`. When `Some(v)` is supplied for claim `i`,
/// ring-switching uses `v` directly in place of that claim's bit-row fold.
///
/// `precomputed_s_hat_v` must be `&[]` or have length `x_outers.len()`.
pub fn open_batch_mixed_with_precomputed_s_hat_v<Ch: Challenger>(
    packed_witness: &[F128],
    prover_data: &ProverData,
    commitment: &Commitment,
    x_outers: &[&[F128]],
    precomputed_s_hat_v: &[Option<&[F128]>],
    packed_direct: &[PackedDirectClaim],
    padding: &PaddingSpec,
    challenger: &mut Ch,
) -> (out: BatchOpeningProof)
    requires
        opening_params(commitment.params),
        prover_data_fits(packed_witness@, *prover_data, commitment.params),
        combine_inputs_fit(
            packed_witness@,
            x_outers@,
            precomputed_s_hat_v@,
            packed_direct@,
            *padding,
        ),
    ensures
        batch_opened::<Ch>(
            old(challenger).state(),
            final(challenger).state(),
            out,
            packed_witness@,
            *prover_data,
            commitment.params,
            x_outers@,
            precomputed_s_hat_v@,
            packed_direct@,
            *padding,
        ),
{
    proof {
        lemma_opening_sizes(commitment.params, packed_witness@, *prover_data);
    }
    let claim = compute_combined_basis_and_target(
        packed_witness,
        x_outers,
        precomputed_s_hat_v,
        packed_direct,
        padding,
        challenger,
    );
    let ntt = AdditiveNttF128::standard(commitment.params.k_code());
    assert(is_standard(ntt, commitment.params.code_dim()));
    let bf_proof = prove_with_precomputed_round0_prime(
        packed_witness,
        claim.b_combined,
        &prover_data.codeword,
        &prover_data.merkle_tree,
        &ntt,
        commitment.params.log_inv_rate,
        commitment.params.log_batch_size,
        default_fri_queries(commitment.params.log_inv_rate),
        Some(claim.round0_prime),
        challenger,
    );
    BatchOpeningProof { ring_switches: claim.ring_switches, basefold: bf_proof }
}

} // verus!
