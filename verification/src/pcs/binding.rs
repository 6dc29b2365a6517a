//! What openings are held to: the claims that they bind, and the transcripts that they
//! follow.
use vstd::arithmetic::div_mod::{
    lemma_fundamental_div_mod, lemma_fundamental_div_mod_converse, lemma_mod_bound,
};
use vstd::arithmetic::power2::{lemma2_to64, lemma_pow2_adds, lemma_pow2_pos, pow2};
use vstd::prelude::*;
use crate::algebra::{lemma_sum_add, lemma_sum_ext, lemma_sum_scale, lemma_sum_split, sum};
use crate::challenger::script::{
    ascii, drawn, draws, lemma_played_concat, lemma_played_push, played, Step,
};
use crate::challenger::Challenger;
use crate::field::gf2_128::{lemma_mul_associates, lemma_mul_commutes, lemma_mul_distributes};
use crate::field::phi8::phi8_spec;
use crate::field::{F128, F8};
use crate::challenger::fs::elements_bytes;
use crate::hash::sha256;
use crate::index::lemma_log2;
use crate::merkle::laws::{digests_have_32_bytes, has_second_preimage, lemma_root_binds_leaves};
use crate::merkle::{leaf_hashes, leaf_values, merkle_root};
use crate::ntt::additive_ntt_f128::AdditiveNttF128;
use crate::ntt::laws_f128::{
    lemma_forward_inverse_roundtrip, lemma_forward_layers_len, lemma_interleaved_matches_per_lane,
    zero_padded,
};
use crate::ntt::layers::lane_of;
use crate::pcs::basefold::binding::{before_challenge, lemma_accepted_transcript};
use crate::pcs::basefold::check::proof_verdict;
use crate::pcs::basefold::{state_after_samples, BaseFoldProof};
use crate::pcs::combine::{
    batch_challenges, batch_label, claim_tables, claim_targets, combined, direct_label,
    values_state,
};
use crate::pcs::commit::{is_codeword, lemma_code_sizes, Commitment, PcsParams};
use crate::pcs::fold::encoded;
use crate::pcs::open::{is_standard, open_label, BatchOpeningProof, OpeningProof};
use crate::pcs::pack::{element_bit, lemma_element_extensional};
use crate::pcs::ring_switch;
use crate::pcs::ring_switch::batch::switched_state;
use crate::pcs::ring_switch::laws::{
    bit_claim, bit_claim_inner, bit_claim_term, lemma_column_bits, lemma_recombined_is_bit_claim,
};
use crate::pcs::ring_switch::{
    after_switch, bit_term, column, kept, partial_evaluations, recombined, ring_switch_label,
    skip_term, switched_claim, switched_table, switched_term, tail,
};
use crate::pcs::verify::{
    first_switch_error, mixed_verdict, opening_verdict, proof_messages, table_verdict, VerifyError,
};
use crate::r1cs::laws::{bit_value, lemma_one_term};
use crate::zerocheck::laws::{
    corner, lemma_eq_weight_at_corner, lemma_lagrange_weights_interpolate, poly_value,
};
use crate::zerocheck::multilinear::{eq_table, lagrange_table, mle};
use crate::zerocheck::PaddingSpec;

verus! {

// ---------------------------------------------------------------------------
// Ring-switched claims
// ---------------------------------------------------------------------------

/// The value of a bit witness at a corner is the bit there: at the node of skip index `i` and
/// the corner `j` of the other variables it is bit `64·j + i`.
pub proof fn lemma_bit_claim_at_corner(z: Seq<F128>, n: nat, i: int, j: nat)
    requires
        0 <= i < 64,
        j < pow2(n),
    ensures
        bit_claim(z, phi8_spec(F8(i as u8)), corner(n, j)) == (if element_bit(
            z[(64 * j + i) / 128],
            (64 * j + i) % 128,
        ) {
            F128::one()
        } else {
            F128::zero()
        }),
{
    lemma2_to64();
    let skip = phi8_spec(F8(i as u8));
    lemma_lagrange_weights_interpolate(6, skip, Seq::empty());
    let x = corner(n, j);
    let inner = |q: int| sum(64, bit_claim_inner(z, skip, q));
    let f = bit_claim_term(z, skip, x);
    let g = |q: int| bit_value(j == q) * inner(q);
    assert forall|q: int| 0 <= q < pow2(n) implies #[trigger] f(q) == g(q) by {
        lemma_eq_weight_at_corner(n, j, q as nat);
    }
    lemma_sum_ext(pow2(n), f, g);
    lemma_one_term(pow2(n), j as int, inner);
    lemma_sum_ext(pow2(n), g, |q: int| bit_value(j as int == q) * inner(q));
    let h = bit_claim_inner(z, skip, j as int);
    let bit = |p: int| bit_value(element_bit(z[(64 * j + p) / 128], (64 * j + p) % 128));
    let one = |p: int| bit_value(i == p) * bit(p);
    assert forall|p: int| 0 <= p < 64 implies #[trigger] h(p) == one(p) by {
        assert(lagrange_table(6, phi8_spec(F8(i as u8)))[p] == bit_value(i == p));
    }
    lemma_sum_ext(64, h, one);
    lemma_one_term(64, i, bit);
    lemma_sum_ext(64, one, |p: int| bit_value(i == p) * bit(p));
}

/// What a message recombines to: where its two halves hold the values of two polynomials at
/// the 64 nodes, it is the line through the values of these at the skip coordinate, taken at
/// the first outer coordinate.
pub proof fn lemma_message_recombines(
    s: Seq<F128>,
    z_skip: F128,
    x0: F128,
    low: Seq<F128>,
    high: Seq<F128>,
)
    requires
        s.len() == 128,
        low.len() <= 64,
        high.len() <= 64,
        forall|i: int|
            0 <= i < 64 ==> #[trigger] s[i] == poly_value(low, phi8_spec(F8(i as u8))),
        forall|i: int|
            64 <= i < 128 ==> #[trigger] s[i] == poly_value(
                high,
                phi8_spec(F8((i - 64) as u8)),
            ),
    ensures
        recombined(s, z_skip, x0) == (F128::one() + x0) * poly_value(low, z_skip)
            + x0 * poly_value(high, z_skip),
{
    lemma2_to64();
    let t = lagrange_table(6, z_skip);
    let y0 = F128::one() + x0;
    lemma_lagrange_weights_interpolate(6, z_skip, low);
    lemma_lagrange_weights_interpolate(6, z_skip, high);
    let f = |i: int| poly_value(low, phi8_spec(F8(i as u8))) * t[i];
    let g = |i: int| poly_value(high, phi8_spec(F8(i as u8))) * t[i];
    lemma_sum_ext(
        64,
        f,
        |j: int| poly_value(low, phi8_spec(F8(j as u8))) * lagrange_table(6, z_skip)[j],
    );
    lemma_sum_ext(
        64,
        g,
        |j: int| poly_value(high, phi8_spec(F8(j as u8))) * lagrange_table(6, z_skip)[j],
    );
    lemma_sum_scale(64, y0, f);
    lemma_sum_scale(64, x0, g);
    let (yf, xg) = (|i: int| y0 * f(i), |i: int| x0 * g(i));
    lemma_sum_add(64, yf, xg);
    let both = |i: int| yf(i) + xg(i);
    let term = skip_term(s, z_skip, x0);
    assert forall|i: int| 0 <= i < 64 implies #[trigger] term(i) == both(i) by {
        let (a, b) = (s[i], s[i + 64]);
        assert(a == poly_value(low, phi8_spec(F8(i as u8))));
        assert(b == poly_value(high, phi8_spec(F8(i as u8))));
        lemma_mul_distributes(t[i], y0 * a, x0 * b);
        lemma_mul_commutes(t[i], y0 * a);
        lemma_mul_commutes(t[i], x0 * b);
        lemma_mul_associates(y0, a, t[i]);
        lemma_mul_associates(x0, b, t[i]);
    }
    lemma_sum_ext(64, term, both);
}

/// At a corner the combined claim is a column of the message: with the weights of the corner
/// `u`, coordinate `v` of the claim is coordinate `u` of the element `v`.
pub proof fn lemma_switched_claim_at_corner(s: Seq<F128>, u: nat, v: int)
    requires
        s.len() == 128,
        u < 128,
        0 <= v < 128,
    ensures
        element_bit(switched_claim(s, eq_table(corner(7, u))), v) == element_bit(s[v], u as int),
{
    lemma2_to64();
    let w = eq_table(corner(7, u));
    let f = switched_term(s, w);
    let col = |q: int| column(s, q);
    let g = |q: int| bit_value(u as int == q) * col(q);
    assert forall|q: int| 0 <= q < 128 implies #[trigger] f(q) == g(q) by {
        lemma_eq_weight_at_corner(7, u, q as nat);
    }
    lemma_sum_ext(128, f, g);
    lemma_one_term(128, u as int, col);
    lemma_sum_ext(128, g, |q: int| bit_value(u as int == q) * col(q));
    lemma_column_bits(s, u as int, v);
}

/// No two messages have the same combined claims: they differ at a corner.
pub proof fn lemma_switched_claims_bind(s: Seq<F128>, t: Seq<F128>)
    requires
        s.len() == 128,
        t.len() == 128,
        forall|point: Seq<F128>|
            point.len() == 7 ==> #[trigger] switched_claim(s, eq_table(point)) == switched_claim(
                t,
                eq_table(point),
            ),
    ensures
        s == t,
{
    assert forall|v: int| 0 <= v < 128 implies #[trigger] s[v] == t[v] by {
        assert forall|u: int| 0 <= u < 128 implies #[trigger] element_bit(s[v], u) == element_bit(
            t[v],
            u,
        ) by {
            lemma_switched_claim_at_corner(s, u as nat, v);
            lemma_switched_claim_at_corner(t, u as nat, v);
            let point = corner(7, u as nat);
            assert(point.len() == 7);
            assert(switched_claim(s, eq_table(point)) == switched_claim(t, eq_table(point)));
        }
        lemma_element_extensional(s[v], t[v]);
    }
    assert(s =~= t);
}

/// At a corner the combined table picks a coordinate: with the weights of the corner `u`, the
/// entry for `e[j]` is one where coordinate `u` of `e[j]` is set, and zero elsewhere.
pub proof fn lemma_switched_table_at_corner(e: Seq<F128>, u: nat, j: int)
    requires
        u < 128,
        0 <= j < e.len(),
    ensures
        switched_table(e, eq_table(corner(7, u))).len() == e.len(),
        switched_table(e, eq_table(corner(7, u)))[j] == (if element_bit(e[j], u as int) {
            F128::one()
        } else {
            F128::zero()
        }),
{
    lemma2_to64();
    let w = eq_table(corner(7, u));
    let f = bit_term(e[j], w);
    let bit = |q: int| bit_value(element_bit(e[j], q));
    let g = |q: int| bit_value(u as int == q) * bit(q);
    assert forall|q: int| 0 <= q < 128 implies #[trigger] f(q) == g(q) by {
        lemma_eq_weight_at_corner(7, u, q as nat);
    }
    lemma_sum_ext(128, f, g);
    lemma_one_term(128, u as int, bit);
    lemma_sum_ext(128, g, |q: int| bit_value(u as int == q) * bit(q));
}

/// No claim is passed over.
proof fn lemma_every_claim_is_checked(
    messages: Seq<Seq<F128>>,
    claims: Seq<F128>,
    z_skips: Seq<F128>,
    xs: Seq<Seq<F128>>,
    i: nat,
    k: int,
)
    requires
        i <= k < messages.len(),
    ensures
        first_switch_error(messages, claims, z_skips, xs, i) is None ==> messages[k].len() == 128
            && recombined(messages[k], z_skips[k], xs[k][0]) == claims[k],
        (forall|q: int| 0 <= q < messages.len() ==> (#[trigger] messages[q]).len() == 128)
            && recombined(messages[k], z_skips[k], xs[k][0]) != claims[k] ==> (
        first_switch_error(messages, claims, z_skips, xs, i) matches Some((at, e)) && at <= k && e
            == ring_switch::VerifyError::ClaimMismatch),
    decreases messages.len() - i,
{
    if i < k {
        lemma_every_claim_is_checked(messages, claims, z_skips, xs, i + 1, k);
    }
}

/// Every ring-switched claim of an accepted batch is the value that its own message
/// recombines to.
pub proof fn lemma_accepted_claims_are_recombined<Ch: Challenger>(
    s: Ch::State,
    commitment: Commitment,
    claims: Seq<F128>,
    z_skips: Seq<F128>,
    xs: Seq<Seq<F128>>,
    tables: Seq<Seq<F128>>,
    values: Seq<F128>,
    out: BatchOpeningProof,
    ntt: &AdditiveNttF128,
    i: int,
)
    requires
        0 <= i < out.ring_switches@.len(),
        mixed_verdict::<Ch>(
            s,
            commitment,
            claims,
            z_skips,
            xs,
            tables,
            values,
            out,
            ntt,
        ).result is Ok,
    ensures
        out.ring_switches@[i].s_hat_v@.len() == 128,
        recombined(out.ring_switches@[i].s_hat_v@, z_skips[i], xs[i][0]) == claims[i],
{
    lemma_every_claim_is_checked(
        proof_messages(out.ring_switches@),
        claims,
        z_skips,
        xs,
        0,
        i,
    );
}

/// A false claim is refused, whichever of the batch it is: where the message of claim `i`
/// is the honest one, another value than the witness's is not accepted, and where all
/// messages have their length the error is that of a mismatched claim.
pub proof fn lemma_false_claim_is_refused<Ch: Challenger>(
    s: Ch::State,
    z: Seq<F128>,
    commitment: Commitment,
    claims: Seq<F128>,
    z_skips: Seq<F128>,
    xs: Seq<Seq<F128>>,
    tables: Seq<Seq<F128>>,
    values: Seq<F128>,
    out: BatchOpeningProof,
    ntt: &AdditiveNttF128,
    i: int,
)
    requires
        0 <= i < out.ring_switches@.len(),
        xs[i].len() >= 1,
        z.len() == pow2((xs[i].len() - 1) as nat),
        out.ring_switches@[i].s_hat_v@ == partial_evaluations(z, eq_table(tail(xs[i]))),
        claims[i] != bit_claim(z, z_skips[i], xs[i]),
    ensures
        ({
            let messages = proof_messages(out.ring_switches@);
            let r = mixed_verdict::<Ch>(
                s,
                commitment,
                claims,
                z_skips,
                xs,
                tables,
                values,
                out,
                ntt,
            ).result;
            &&& first_switch_error(messages, claims, z_skips, xs, 0) is Some
            &&& r matches Err(VerifyError::RingSwitch(e))
            &&& (forall|q: int|
                0 <= q < out.ring_switches@.len() ==> (
                #[trigger] out.ring_switches@[q]).s_hat_v@.len() == 128) ==> r == Err::<
                (),
                VerifyError,
            >(VerifyError::RingSwitch(ring_switch::VerifyError::ClaimMismatch))
        }),
{
    let messages = proof_messages(out.ring_switches@);
    lemma_recombined_is_bit_claim(z, z_skips[i], xs[i]);
    lemma_every_claim_is_checked(messages, claims, z_skips, xs, 0, i);
    if forall|q: int|
        0 <= q < out.ring_switches@.len() ==> (#[trigger] out.ring_switches@[q]).s_hat_v@.len()
            == 128 {
        assert forall|q: int| 0 <= q < messages.len() implies (#[trigger] messages[q]).len()
            == 128 by {
            assert(out.ring_switches@[q].s_hat_v@.len() == 128);
        }
    }
}

// ---------------------------------------------------------------------------
// Transcripts
// ---------------------------------------------------------------------------

/// What ring-switching a claim adds to the transcript.
pub open spec fn switch_script(message: Seq<F128>) -> Seq<Step> {
    seq![
        Step::Label("flock-ring-switch-v0"@),
        Step::Elements(message),
        Step::SampleVec(7),
    ]
}

/// The first `i` claims.
pub open spec fn switches_script(messages: Seq<Seq<F128>>, i: nat) -> Seq<Step>
    decreases i,
{
    if i == 0 {
        Seq::empty()
    } else {
        switches_script(messages, (i - 1) as nat) + switch_script(messages[i - 1])
    }
}

/// The values of the first `k` packed-direct claims.
pub open spec fn values_script(values: Seq<F128>, k: nat) -> Seq<Step>
    decreases k,
{
    if k == 0 {
        Seq::empty()
    } else {
        values_script(values, (k - 1) as nat).push(Step::Label("flock-pcs-packed-direct-v0"@)).push(
            Step::Element(values[k - 1]),
        )
    }
}

/// All that is observed before the coefficients of a batch are sampled.
pub open spec fn batch_script(messages: Seq<Seq<F128>>, values: Seq<F128>) -> Seq<Step> {
    seq![Step::Label("flock-pcs-open-batch-v0"@)] + switches_script(messages, messages.len())
        + values_script(values, values.len())
}

proof fn lemma_switch_script<Ch: Challenger>(s: Ch::State, message: Seq<F128>)
    ensures
        played::<Ch>(s, switch_script(message)) == after_switch::<Ch>(s, message),
        played::<Ch>(s, switch_script(message).take(2)) == Ch::after_f128_slice(
            Ch::after_label(s, ring_switch_label()),
            message,
        ),
{
    reveal_strlit("flock-ring-switch-v0");
    let text = "flock-ring-switch-v0"@;
    assert(ring_switch_label() =~= ascii(text));
    let none = Seq::<Step>::empty();
    let one = none.push(Step::Label(text));
    let two = one.push(Step::Elements(message));
    lemma_played_push::<Ch>(s, none, Step::Label(text));
    lemma_played_push::<Ch>(s, one, Step::Elements(message));
    lemma_played_push::<Ch>(s, two, Step::SampleVec(7));
    assert(switch_script(message) =~= two.push(Step::SampleVec(7)));
    assert(switch_script(message).take(2) =~= two);
}

proof fn lemma_switches_script<Ch: Challenger>(s: Ch::State, messages: Seq<Seq<F128>>, i: nat)
    ensures
        played::<Ch>(s, switches_script(messages, i)) == switched_state::<Ch>(s, messages, i),
    decreases i,
{
    if i > 0 {
        let p = (i - 1) as nat;
        lemma_switches_script::<Ch>(s, messages, p);
        lemma_played_concat::<Ch>(
            s,
            switches_script(messages, p),
            switch_script(messages[i - 1]),
        );
        lemma_switch_script::<Ch>(switched_state::<Ch>(s, messages, p), messages[i - 1]);
    }
}

proof fn lemma_values_script<Ch: Challenger>(s: Ch::State, values: Seq<F128>, k: nat)
    ensures
        played::<Ch>(s, values_script(values, k)) == values_state::<Ch>(s, values, k),
    decreases k,
{
    if k > 0 {
        let p = (k - 1) as nat;
        reveal_strlit("flock-pcs-packed-direct-v0");
        let text = "flock-pcs-packed-direct-v0"@;
        assert(direct_label() =~= ascii(text));
        lemma_values_script::<Ch>(s, values, p);
        let before = values_script(values, p);
        lemma_played_push::<Ch>(s, before, Step::Label(text));
        lemma_played_push::<Ch>(s, before.push(Step::Label(text)), Step::Element(values[k - 1]));
    }
}

/// Samples one by one.
pub proof fn lemma_draws<Ch: Challenger>(s: Ch::State, n: nat)
    ensures
        played::<Ch>(s, draws(n)) == state_after_samples::<Ch>(s, n),
    decreases n,
{
    if n > 0 {
        lemma_draws::<Ch>(s, (n - 1) as nat);
        assert(draws(n) =~= draws((n - 1) as nat).push(Step::Sample));
        lemma_played_push::<Ch>(s, draws((n - 1) as nat), Step::Sample);
    }
}

/// The transcript of a batch: behind the label, each message under its label with the seven
/// challenges of its point, and each packed-direct value under its label, the
/// coefficients are sampled one by one, ring-switched claims first. The weights of a
/// message are those of the point sampled behind it.
pub proof fn lemma_batch_transcript<Ch: Challenger>(
    s: Ch::State,
    messages: Seq<Seq<F128>>,
    values: Seq<F128>,
)
    ensures
        ({
            let bc = batch_challenges::<Ch>(Ch::after_label(s, batch_label()), messages, values);
            let all = batch_script(messages, values);
            let n = messages.len() + values.len();
            &&& bc.gammas.len() == n
            &&& forall|k: int|
                0 <= k < n ==> #[trigger] bc.gammas[k] == drawn::<Ch>(s, all + draws(k as nat))
            &&& bc.state == played::<Ch>(s, all + draws(n))
            &&& bc.weights.len() == messages.len()
            &&& forall|i: int|
                0 <= i < messages.len() ==> #[trigger] bc.weights[i] == eq_table(
                    Ch::challenge_vec(
                        played::<Ch>(
                            s,
                            seq![Step::Label("flock-pcs-open-batch-v0"@)] + switches_script(
                                messages,
                                i as nat,
                            ) + switch_script(messages[i]).take(2),
                        ),
                        7,
                    ),
                )
        }),
{
    reveal_strlit("flock-pcs-open-batch-v0");
    let text = "flock-pcs-open-batch-v0"@;
    assert(batch_label() =~= ascii(text));
    let s0 = Ch::after_label(s, batch_label());
    let label = seq![Step::Label(text)];
    lemma_played_push::<Ch>(s, Seq::empty(), Step::Label(text));
    assert(label =~= Seq::<Step>::empty().push(Step::Label(text)));
    let all = batch_script(messages, values);
    let (x, y) = (
        switches_script(messages, messages.len()),
        values_script(values, values.len()),
    );
    lemma_switches_script::<Ch>(s0, messages, messages.len());
    lemma_played_concat::<Ch>(s, label, x);
    let s1 = switched_state::<Ch>(s0, messages, messages.len());
    lemma_values_script::<Ch>(s1, values, values.len());
    lemma_played_concat::<Ch>(s, label + x, y);
    let s2 = values_state::<Ch>(s1, values, values.len());
    assert(played::<Ch>(s, all) == s2);
    let n = messages.len() + values.len();
    assert forall|k: nat| k <= n implies #[trigger] played::<Ch>(s, all + draws(k))
        == state_after_samples::<Ch>(s2, k) by {
        lemma_played_concat::<Ch>(s, all, draws(k));
        lemma_draws::<Ch>(s2, k);
    }
    let bc = batch_challenges::<Ch>(s0, messages, values);
    assert forall|k: int| 0 <= k < n implies #[trigger] bc.gammas[k] == drawn::<Ch>(
        s,
        all + draws(k as nat),
    ) by {
        assert(played::<Ch>(s, all + draws(k as nat)) == state_after_samples::<Ch>(s2, k as nat));
    }
    assert forall|i: int| 0 <= i < messages.len() implies #[trigger] bc.weights[i] == eq_table(
        Ch::challenge_vec(
            played::<Ch>(
                s,
                seq![Step::Label("flock-pcs-open-batch-v0"@)] + switches_script(
                    messages,
                    i as nat,
                ) + switch_script(messages[i]).take(2),
            ),
            7,
        ),
    ) by {
        let w = switches_script(messages, i as nat);
        lemma_switches_script::<Ch>(s0, messages, i as nat);
        lemma_played_concat::<Ch>(s, label, w);
        lemma_played_concat::<Ch>(s, label + w, switch_script(messages[i]).take(2));
        lemma_switch_script::<Ch>(switched_state::<Ch>(s0, messages, i as nat), messages[i]);
    }
}

/// The verifier of a batch runs BaseFold behind that transcript, on the sum of the reduced
/// claims and of the packed-direct values, each times its own coefficient.
pub proof fn lemma_batch_target<Ch: Challenger>(
    s: Ch::State,
    commitment: Commitment,
    claims: Seq<F128>,
    z_skips: Seq<F128>,
    xs: Seq<Seq<F128>>,
    tables: Seq<Seq<F128>>,
    values: Seq<F128>,
    out: BatchOpeningProof,
    ntt: &AdditiveNttF128,
)
    requires
        first_switch_error(proof_messages(out.ring_switches@), claims, z_skips, xs, 0) is None,
    ensures
        ({
            let messages = proof_messages(out.ring_switches@);
            let n = messages.len();
            let bc = batch_challenges::<Ch>(Ch::after_label(s, batch_label()), messages, values);
            let all = batch_script(messages, values);
            mixed_verdict::<Ch>(
                s,
                commitment,
                claims,
                z_skips,
                xs,
                tables,
                values,
                out,
                ntt,
            ) == table_verdict::<Ch>(
                played::<Ch>(s, all + draws(n + values.len())),
                sum(
                    n,
                    |i: int|
                        drawn::<Ch>(s, all + draws(i as nat)) * switched_claim(
                            messages[i],
                            bc.weights[i],
                        ),
                ) + sum(
                    values.len(),
                    |k: int| drawn::<Ch>(s, all + draws((n + k) as nat)) * values[k],
                ),
                combined(claim_tables(bc, xs, tables), pow2(commitment.params.msg_log())),
                out.basefold,
                commitment.root@,
                commitment.params,
                ntt,
            )
        }),
{
    let messages = proof_messages(out.ring_switches@);
    let n = messages.len();
    let bc = batch_challenges::<Ch>(Ch::after_label(s, batch_label()), messages, values);
    let all = batch_script(messages, values);
    lemma_batch_transcript::<Ch>(s, messages, values);
    let t = claim_targets(bc, messages, values);
    let f = |k: int| t[k];
    lemma_sum_split(n, values.len(), f);
    let g = |i: int|
        drawn::<Ch>(s, all + draws(i as nat)) * switched_claim(messages[i], bc.weights[i]);
    let h = |k: int| drawn::<Ch>(s, all + draws((n + k) as nat)) * values[k];
    let f1 = |k: int| f(n + k);
    assert forall|i: int| 0 <= i < n implies #[trigger] f(i) == g(i) by {
        assert(bc.gammas[i] == drawn::<Ch>(s, all + draws(i as nat)));
    }
    assert forall|k: int| 0 <= k < values.len() implies #[trigger] f1(k) == h(k) by {
        assert(bc.gammas[n + k] == drawn::<Ch>(s, all + draws((n + k) as nat)));
    }
    lemma_sum_ext(n, f, g);
    lemma_sum_ext(values.len(), f1, h);
}

/// The verifier of one opening runs BaseFold behind its label and the ring-switching of
/// the claim, on the claim that the message reduces to at the point sampled behind it.
pub proof fn lemma_opening_transcript<Ch: Challenger>(
    s: Ch::State,
    commitment: Commitment,
    claim: F128,
    z_skip: F128,
    x_outer: Seq<F128>,
    out: OpeningProof,
    ntt: &AdditiveNttF128,
)
    requires
        out.ring_switch.s_hat_v@.len() == 128,
        recombined(out.ring_switch.s_hat_v@, z_skip, x_outer[0]) == claim,
    ensures
        ({
            let message = out.ring_switch.s_hat_v@;
            let label = seq![Step::Label("flock-pcs-open-v0"@)];
            let w = eq_table(
                Ch::challenge_vec(
                    played::<Ch>(s, label + switch_script(message).take(2)),
                    7,
                ),
            );
            opening_verdict::<Ch>(s, commitment, claim, z_skip, x_outer, out, ntt)
                == table_verdict::<Ch>(
                played::<Ch>(s, label + switch_script(message)),
                switched_claim(message, w),
                switched_table(eq_table(tail(x_outer)), w),
                out.basefold,
                commitment.root@,
                commitment.params,
                ntt,
            )
        }),
{
    reveal_strlit("flock-pcs-open-v0");
    let text = "flock-pcs-open-v0"@;
    assert(open_label() =~= ascii(text));
    let message = out.ring_switch.s_hat_v@;
    let label = seq![Step::Label(text)];
    lemma_played_push::<Ch>(s, Seq::empty(), Step::Label(text));
    assert(label =~= Seq::<Step>::empty().push(Step::Label(text)));
    lemma_played_concat::<Ch>(s, label, switch_script(message));
    lemma_played_concat::<Ch>(s, label, switch_script(message).take(2));
    lemma_switch_script::<Ch>(played::<Ch>(s, label), message);
}

/// One opening is accepted only for the value that its message recombines to: a message that
/// does not have 128 elements and another value are refused, each with its own error.
pub proof fn lemma_opened_claim_is_recombined<Ch: Challenger>(
    s: Ch::State,
    commitment: Commitment,
    claim: F128,
    z_skip: F128,
    x_outer: Seq<F128>,
    out: OpeningProof,
    ntt: &AdditiveNttF128,
    z: Seq<F128>,
)
    requires
        x_outer.len() >= 1,
        z.len() == pow2((x_outer.len() - 1) as nat),
    ensures
        ({
            let r = opening_verdict::<Ch>(s, commitment, claim, z_skip, x_outer, out, ntt).result;
            let message = out.ring_switch.s_hat_v@;
            let mismatch = Err::<(), VerifyError>(
                VerifyError::RingSwitch(ring_switch::VerifyError::ClaimMismatch),
            );
            &&& r is Ok ==> message.len() == 128 && recombined(message, z_skip, x_outer[0])
                == claim
            &&& message.len() != 128 ==> r == Err::<(), VerifyError>(
                VerifyError::RingSwitch(ring_switch::VerifyError::InvalidProofShape),
            )
            &&& message.len() == 128 && recombined(message, z_skip, x_outer[0]) != claim ==> r
                == mismatch
            &&& message == partial_evaluations(z, eq_table(tail(x_outer))) && claim != bit_claim(
                z,
                z_skip,
                x_outer,
            ) ==> r == mismatch
        }),
{
    lemma_recombined_is_bit_claim(z, z_skip, x_outer);
}

/// An accepted opening has a round for every variable of the message, and its `final_b` is the
/// value of the table at the challenges of the rounds, whatever it is.
pub proof fn lemma_accepted_table_value<Ch: Challenger>(
    s: Ch::State,
    target: F128,
    b: Seq<F128>,
    out: BaseFoldProof,
    root: Seq<u8>,
    params: PcsParams,
    ntt: &AdditiveNttF128,
)
    requires
        table_verdict::<Ch>(s, target, b, out, root, params, ntt).result is Ok,
    ensures
        out.round_messages@.len() == params.msg_log(),
        proof_verdict::<Ch>(
            s,
            target,
            out,
            root,
            ntt,
            params.log_inv_rate as nat,
            params.log_batch_size as nat,
        ).result is Ok,
        out.final_b == mle(
            b,
            Seq::new(
                params.msg_log(),
                |i: int|
                    drawn::<Ch>(s, before_challenge(out, params.log_batch_size as nat, i as nat)),
            ),
        ),
{
    let (rate, batch) = (params.log_inv_rate as nat, params.log_batch_size as nat);
    let v = proof_verdict::<Ch>(s, target, out, root, ntt, rate, batch);
    lemma_accepted_transcript::<Ch>(s, target, out, root, ntt, rate, batch);
    let ch = v.result->Ok_0;
    assert(ch =~= Seq::new(
        params.msg_log(),
        |i: int| drawn::<Ch>(s, before_challenge(out, batch, i as nat)),
    ));
}

// ---------------------------------------------------------------------------
// Padding
// ---------------------------------------------------------------------------

/// The place of bit `b` of the packed element `j` in its block of `2^k_log` bits.
pub open spec fn place_in_block(k_log: nat, j: int, b: int) -> int {
    (128 * j + b) % (pow2(k_log) as int)
}

proof fn lemma_place_in_block(k_log: nat, j: int, b: int)
    requires
        k_log >= 7,
        0 <= b < 128,
    ensures
        place_in_block(k_log, j, b) == 128 * (j % (pow2((k_log - 7) as nat) as int)) + b,
{
    let h = pow2((k_log - 7) as nat) as int;
    lemma2_to64();
    lemma_pow2_adds(7, (k_log - 7) as nat);
    lemma_pow2_pos((k_log - 7) as nat);
    let q = j / h;
    let r = j % h;
    lemma_fundamental_div_mod(j, h);
    lemma_mod_bound(j, h);
    assert(128 * j + b == q * (128 * h) + (128 * r + b)) by (nonlinear_arith)
        requires
            j == h * q + r,
    ;
    lemma_fundamental_div_mod_converse(128 * j + b, 128 * h, q, 128 * r + b);
}

/// Padding leaves out the elements that lie beyond the useful bits of their block, and no
/// others: a witness that is zero there is kept as it is.
pub proof fn lemma_padding_leaves_useful_bits(z: Seq<F128>, padding: PaddingSpec, j: int)
    requires
        padding.wf(),
        0 <= j < z.len(),
    ensures
        kept(z, padding).len() == z.len(),
        (exists|b: int|
            0 <= b < 128 && #[trigger] place_in_block(padding.k_log as nat, j, b)
                < padding.useful_bits) ==> kept(z, padding)[j] == z[j],
        (forall|b: int|
            0 <= b < 128 ==> #[trigger] place_in_block(padding.k_log as nat, j, b)
                >= padding.useful_bits) ==> kept(z, padding)[j] == F128::zero(),
{
    let k = padding.k_log as nat;
    lemma_place_in_block(k, j, 0);
    if exists|b: int| 0 <= b < 128 && #[trigger] place_in_block(k, j, b) < padding.useful_bits {
        let b = choose|b: int|
            0 <= b < 128 && #[trigger] place_in_block(k, j, b) < padding.useful_bits;
        lemma_place_in_block(k, j, b);
    } else {
        assert(place_in_block(k, j, 0) >= padding.useful_bits);
    }
}

// ---------------------------------------------------------------------------
// The commitment
// ---------------------------------------------------------------------------

/// Different messages have different codewords.
pub proof fn lemma_encoding_is_injective(
    ntt: &AdditiveNttF128,
    x: Seq<F128>,
    y: Seq<F128>,
    log_d: nat,
    lanes: nat,
)
    requires
        lanes > 0,
        x.len() == y.len(),
        x.len() <= pow2(log_d) * lanes,
        encoded(ntt, x, log_d, lanes) == encoded(ntt, y, log_d, lanes),
    ensures
        x == y,
{
    let d = pow2(log_d);
    let n = d * lanes;
    let (p, q) = (zero_padded(x, n), zero_padded(y, n));
    lemma_log2(log_d);
    vstd::arithmetic::div_mod::lemma_fundamental_div_mod_converse(
        n as int,
        lanes as int,
        d as int,
        0,
    );
    assert forall|k: int| 0 <= k < n implies p[k] == q[k] by {
        let (at, lane) = (k / (lanes as int), k % (lanes as int));
        vstd::arithmetic::div_mod::lemma_fundamental_div_mod(k, lanes as int);
        vstd::arithmetic::div_mod::lemma_mod_bound(k, lanes as int);
        assert(0 <= at < d) by (nonlinear_arith)
            requires
                k == lanes as int * at + lane,
                0 <= k < d * lanes,
                0 <= lane < lanes,
        ;
        assert(lanes as int * at == at * lanes as int) by (nonlinear_arith);
        let (u, v) = (
            lane_of(p, lanes as int, lane),
            lane_of(q, lanes as int, lane),
        );
        lemma_interleaved_matches_per_lane(ntt, p, lanes, lane, 0);
        lemma_interleaved_matches_per_lane(ntt, q, lanes, lane, 0);
        assert(ntt.forward(u) == ntt.forward(v));
        lemma_forward_inverse_roundtrip(ntt, u);
        lemma_forward_inverse_roundtrip(ntt, v);
        assert(u[at] == p[at * lanes as int + lane]);
        assert(v[at] == q[at * lanes as int + lane]);
    }
    assert forall|k: int| 0 <= k < x.len() implies x[k] == y[k] by {
        assert(p[k] == q[k]);
    }
    assert(x =~= y);
}

/// Two leaves with the same hash.
pub open spec fn leaves_collide(x: Seq<F128>, y: Seq<F128>, n: nat, i: int) -> bool {
    &&& 0 <= i < n
    &&& leaf_values(x, n as int, i) != leaf_values(y, n as int, i)
    &&& sha256(elements_bytes(leaf_values(x, n as int, i))) == sha256(
        elements_bytes(leaf_values(y, n as int, i)),
    )
}

/// A commitment binds the witness: two witnesses whose codewords have the same root are the
/// same, or two different leaves have the same hash, or there are other bytes with the
/// hash of a node of the tree.
pub proof fn lemma_commitment_binds_witness(
    ntt: &AdditiveNttF128,
    params: PcsParams,
    x: Seq<F128>,
    y: Seq<F128>,
    codewords: (Seq<F128>, Seq<F128>),
)
    requires
        params.wf(),
        is_standard(*ntt, params.code_dim()),
        x.len() == pow2(params.msg_log()),
        y.len() == pow2(params.msg_log()),
        is_codeword(codewords.0, x, params),
        is_codeword(codewords.1, y, params),
        merkle_root(leaf_hashes(codewords.0, pow2(params.code_dim())), params.code_dim())
            == merkle_root(leaf_hashes(codewords.1, pow2(params.code_dim())), params.code_dim()),
    ensures
        digests_have_32_bytes() ==> {
            ||| x == y
            ||| exists|i: int| #[trigger]
                leaves_collide(codewords.0, codewords.1, pow2(params.code_dim()), i)
            ||| has_second_preimage(
                leaf_hashes(codewords.0, pow2(params.code_dim())),
                params.code_dim(),
            )
        },
{
    let k = params.code_dim();
    let n = pow2(k);
    let lanes = pow2(params.log_batch_size as nat);
    let (cx, cy) = codewords;
    let (hx, hy) = (leaf_hashes(cx, n), leaf_hashes(cy, n));
    lemma_code_sizes(params);
    vstd::arithmetic::power2::lemma_pow2_pos(params.log_batch_size as nat);
    vstd::arithmetic::power2::lemma_pow2_pos(params.log_inv_rate as nat);
    vstd::arithmetic::power2::lemma_pow2_pos(k);
    assert(cx == encoded(ntt, x, k, lanes));
    assert(cy == encoded(ntt, y, k, lanes));
    lemma_forward_layers_len(ntt, zero_padded(x, n * lanes), k, lanes, 0, k);
    lemma_forward_layers_len(ntt, zero_padded(y, n * lanes), k, lanes, 0, k);
    if digests_have_32_bytes() && !has_second_preimage(hx, k) && !(exists|i: int| #[trigger]
        leaves_collide(cx, cy, n, i)) {
        lemma_root_binds_leaves(hx, hy, k);
        vstd::arithmetic::div_mod::lemma_fundamental_div_mod_converse(
            (n * lanes) as int,
            n as int,
            lanes as int,
            0,
        );
        assert forall|q: int| 0 <= q < n * lanes implies cx[q] == cy[q] by {
            let (i, r) = (q / (lanes as int), q % (lanes as int));
            vstd::arithmetic::div_mod::lemma_fundamental_div_mod(q, lanes as int);
            vstd::arithmetic::div_mod::lemma_mod_bound(q, lanes as int);
            assert(0 <= i < n && 0 <= i * lanes as int && i * lanes as int + lanes <= n * lanes)
                by (nonlinear_arith)
                requires
                    q == lanes as int * i + r,
                    0 <= q < n * lanes,
                    0 <= r < lanes,
            ;
            assert(lanes as int * i == i * lanes as int) by (nonlinear_arith);
            assert(hx[i] == hy[i]);
            assert(!leaves_collide(cx, cy, n, i));
            assert(leaf_values(cx, n as int, i)[r] == cx[q]);
            assert(leaf_values(cy, n as int, i)[r] == cy[q]);
        }
        assert(cx =~= cy);
        assert(pow2(params.msg_log()) <= n * lanes) by (nonlinear_arith)
            requires
                pow2(params.msg_log()) * pow2(params.log_inv_rate as nat) == n * lanes,
                pow2(params.log_inv_rate as nat) >= 1,
        ;
        lemma_encoding_is_injective(ntt, x, y, k, lanes);
    }
}

} // verus!
