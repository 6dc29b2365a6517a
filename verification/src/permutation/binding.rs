//! What a permutation proof is held to: the transcript that it follows, and the relation
//! that its evaluations satisfy.
use vstd::prelude::*;
use crate::algebra::{lemma_sum_ext, sum};
use crate::challenger::script::{
    ascii, drawn, draws, lemma_played_concat, lemma_played_push, played, Step,
};
use crate::challenger::Challenger;
use crate::field::gf2_128::{
    lemma_add_rules, lemma_mul_associates, lemma_mul_cancels, lemma_mul_commutes, lemma_mul_inverse,
    lemma_mul_units,
};
use crate::field::F128;
use crate::lincheck::binding::rounds_script;
use crate::ntt::AdditiveNttF128;
use crate::pcs::binding::{batch_script, lemma_batch_transcript};
use crate::pcs::combine::claim_targets;
use crate::pcs::commit::{Commitment, PcsParams};
use crate::pcs::residual::BackendClaim;
use crate::pcs::verify::mixed_verdict;
use crate::permutation::check::{checked_rounds, is_v_claim, perm_verdict, round_claim};
use crate::permutation::tables::tag_value;
use crate::permutation::{
    after_values, evals, params_of, perm_challenges, perm_label, recursion_is_feasible, tag,
    v_challenges, v_tables, v_values, BatchOpening, PermutationProof, VerifyError,
};
use crate::zerocheck::multilinear::eq_table;

verus! {

/// Different indices have different tags.
pub proof fn lemma_tags_differ(x: int, y: int)
    requires
        0 <= x <= u64::MAX,
        0 <= y <= u64::MAX,
        tag(x) == tag(y),
    ensures
        x == y,
{
}

/// The tag of an index is the element whose low word is the index.
pub proof fn lemma_tag_is_index(x: u64)
    ensures
        tag(x as int).lo == x,
        tag(x as int).hi == 0,
{
}

// ---------------------------------------------------------------------------
// The transcript
// ---------------------------------------------------------------------------

/// The label, `β`, `γ`, the root of `v` and the claimed product: what is there before `α`.
pub open spec fn commit_script(root: Seq<u8>, product: F128) -> Seq<Step> {
    seq![
        Step::Label("flock-perm-v0"@),
        Step::Sample,
        Step::Sample,
        Step::Bytes(root),
        Step::Element(product),
    ]
}

/// All that is there before the rounds: then `α` and the point of the zerocheck follow.
pub open spec fn start_script(root: Seq<u8>, product: F128, mu: nat) -> Seq<Step> {
    commit_script(root, product).push(Step::Sample).push(Step::SampleVec(mu))
}

/// The evaluations that are observed after the rounds.
pub open spec fn values_script(values: Seq<F128>) -> Seq<Step> {
    Seq::new(values.len(), |i: int| Step::Element(values[i]))
}

/// The challenges of the relation are those that the challenger gives behind the label, and
/// behind the root and the claimed product.
pub proof fn lemma_relation_challenges<Ch: Challenger>(
    s: Ch::State,
    root: Seq<u8>,
    product: F128,
    mu: nat,
)
    ensures
        ({
            let pc = perm_challenges::<Ch>(s, root, product, mu);
            let label = seq![Step::Label("flock-perm-v0"@)];
            let committed = commit_script(root, product);
            &&& pc.mix.beta == drawn::<Ch>(s, label)
            &&& pc.mix.gamma == drawn::<Ch>(s, label.push(Step::Sample))
            &&& pc.mix.alpha == drawn::<Ch>(s, committed)
            &&& pc.r == Ch::challenge_vec(played::<Ch>(s, committed.push(Step::Sample)), mu)
            &&& pc.state == played::<Ch>(s, start_script(root, product, mu))
        }),
{
    reveal_strlit("flock-perm-v0");
    let text = "flock-perm-v0"@;
    assert(perm_label() =~= ascii(text));
    let none = Seq::<Step>::empty();
    let label = none.push(Step::Label(text));
    assert(seq![Step::Label(text)] =~= label);
    let one = label.push(Step::Sample);
    let two = one.push(Step::Sample);
    let rooted = two.push(Step::Bytes(root));
    let committed = rooted.push(Step::Element(product));
    assert(commit_script(root, product) =~= committed);
    lemma_played_push::<Ch>(s, none, Step::Label(text));
    lemma_played_push::<Ch>(s, label, Step::Sample);
    lemma_played_push::<Ch>(s, one, Step::Sample);
    lemma_played_push::<Ch>(s, two, Step::Bytes(root));
    lemma_played_push::<Ch>(s, rooted, Step::Element(product));
    lemma_played_push::<Ch>(s, committed, Step::Sample);
    lemma_played_push::<Ch>(s, committed.push(Step::Sample), Step::SampleVec(mu));
}

proof fn lemma_checked_script<Ch: Challenger>(
    s: Ch::State,
    rounds: Seq<(F128, F128)>,
    r: Seq<F128>,
    t: nat,
)
    ensures
        ({
            let p = checked_rounds::<Ch>(s, rounds, r, t);
            &&& p.state == played::<Ch>(s, rounds_script(rounds, t))
            &&& p.rho.len() == t
            &&& forall|i: int|
                0 <= i < t ==> #[trigger] p.rho[i] == drawn::<Ch>(
                    s,
                    rounds_script(rounds, i as nat).push(Step::Element(rounds[i].0)).push(
                        Step::Element(rounds[i].1),
                    ),
                )
        }),
    decreases t,
{
    if t > 0 {
        lemma_checked_script::<Ch>(s, rounds, r, (t - 1) as nat);
        let m = rounds[t - 1];
        let before = rounds_script(rounds, (t - 1) as nat);
        let first = before.push(Step::Element(m.0));
        let both = first.push(Step::Element(m.1));
        lemma_played_push::<Ch>(s, before, Step::Element(m.0));
        lemma_played_push::<Ch>(s, first, Step::Element(m.1));
        lemma_played_push::<Ch>(s, both, Step::Sample);
    }
}

proof fn lemma_values_played<Ch: Challenger>(s: Ch::State, values: Seq<F128>)
    ensures
        played::<Ch>(s, values_script(values)) == after_values::<Ch>(s, values),
    decreases values.len(),
{
    if values.len() > 0 {
        lemma_values_played::<Ch>(s, values.drop_last());
        assert(values_script(values) =~= values_script(values.drop_last()).push(
            Step::Element(values.last()),
        ));
        lemma_played_push::<Ch>(
            s,
            values_script(values.drop_last()),
            Step::Element(values.last()),
        );
    }
}

// ---------------------------------------------------------------------------
// The relation
// ---------------------------------------------------------------------------

/// What a round makes of its claim: the polynomial `G` of the round is a quadratic with
/// `(1 + r)·G(0) + r·G(1)` the claim and with the given `G(1)`.
pub proof fn lemma_round_is_consistent(claim: F128, r: F128, g1: F128, g_inf: F128)
    ensures
        round_claim(claim, r, g1, g_inf, F128::one()) == g1,
        r != F128::one() ==> (F128::one() + r) * round_claim(claim, r, g1, g_inf, F128::zero()) + r
            * g1 == claim,
{
    let (one, zero) = (F128::one(), F128::zero());
    let g0 = (claim + r * g1) * (one + r).inverse();
    lemma_add_rules(one, one, one, one);
    lemma_add_rules(one, zero, zero, zero);
    lemma_mul_units(g0);
    lemma_mul_units(g1);
    lemma_mul_units(g_inf);
    lemma_mul_units(g_inf * one);
    lemma_mul_units(g_inf * zero);
    lemma_add_rules(zero, g1, g1, g1);
    lemma_add_rules(g1, zero, zero, zero);
    lemma_add_rules(g0, zero, zero, zero);
    lemma_mul_units(zero);
    lemma_mul_units(one);
    assert(g_inf * zero * (one + zero) == zero);
    assert(round_claim(claim, r, g1, g_inf, zero) == g0);
    if r != one {
        let c = one + r;
        if c == zero {
            lemma_add_rules(one, r, r, r);
            lemma_add_rules(r, r, r, r);
        }
        lemma_mul_inverse(c);
        let x = claim + r * g1;
        lemma_mul_commutes(c, x * c.inverse());
        lemma_mul_associates(x, c.inverse(), c);
        lemma_mul_units(x);
        lemma_add_rules(claim, r * g1, r * g1, r * g1);
    }
}

/// `F(ρ)` from the evaluations, for the challenges of the relation:
/// `v(0,ρ)·(g + β·s_σ + γ) + (f + β·s_id + γ) + α·(v(1,ρ) + v(ρ,0)·v(ρ,1))`.
pub open spec fn relation_value<L>(
    out: PermutationProof<L>,
    beta: F128,
    gamma: F128,
    alpha: F128,
    rho: Seq<F128>,
) -> F128 {
    (out.v_0x * (out.g_eval + beta * out.s_sigma_eval + gamma) + (out.f_eval + beta * tag_value(rho)
        + gamma)) + alpha * (out.v_1x + out.v_x0 * out.v_x1)
}

/// An accepted proof: its claimed product is one, its point is sampled behind its messages,
/// and its rounds end at the value of the relation at that point, for the challenges
/// sampled behind the label and the commitment.
pub proof fn lemma_accepted_relation<Ch: Challenger, L>(
    s: Ch::State,
    mu: nat,
    out: PermutationProof<L>,
    ntt: &AdditiveNttF128,
)
    requires
        perm_verdict::<Ch, L>(s, mu, out, ntt).result is Ok,
    ensures
        ({
            let rho = perm_verdict::<Ch, L>(s, mu, out, ntt).result->Ok_0;
            let label = seq![Step::Label("flock-perm-v0"@)];
            let committed = commit_script(out.v_root@, out.claimed_product);
            let start = start_script(out.v_root@, out.claimed_product, mu);
            let r = Ch::challenge_vec(played::<Ch>(s, committed.push(Step::Sample)), mu);
            &&& out.claimed_product == F128::one()
            &&& rho.len() == mu
            &&& forall|i: int|
                0 <= i < mu ==> #[trigger] rho[i] == drawn::<Ch>(
                    s,
                    start + rounds_script(out.rounds@, i as nat).push(
                        Step::Element(out.rounds@[i].0),
                    ).push(Step::Element(out.rounds@[i].1)),
                )
            &&& checked_rounds::<Ch>(played::<Ch>(s, start), out.rounds@, r, mu).claim
                == relation_value(
                out,
                drawn::<Ch>(s, label),
                drawn::<Ch>(s, label.push(Step::Sample)),
                drawn::<Ch>(s, committed),
                rho,
            )
        }),
{
    let pc = perm_challenges::<Ch>(s, out.v_root@, out.claimed_product, mu);
    lemma_relation_challenges::<Ch>(s, out.v_root@, out.claimed_product, mu);
    lemma_checked_script::<Ch>(pc.state, out.rounds@, pc.r, mu);
    let start = start_script(out.v_root@, out.claimed_product, mu);
    let p = checked_rounds::<Ch>(pc.state, out.rounds@, pc.r, mu);
    assert forall|i: int| 0 <= i < mu implies #[trigger] p.rho[i] == drawn::<Ch>(
        s,
        start + rounds_script(out.rounds@, i as nat).push(Step::Element(out.rounds@[i].0)).push(
            Step::Element(out.rounds@[i].1),
        ),
    ) by {
        lemma_played_concat::<Ch>(
            s,
            start,
            rounds_script(out.rounds@, i as nat).push(Step::Element(out.rounds@[i].0)).push(
                Step::Element(out.rounds@[i].1),
            ),
        );
    }
}

/// The proofs have the same commitment, product and rounds.
pub open spec fn same_rounds<L>(x: PermutationProof<L>, y: PermutationProof<L>) -> bool {
    &&& x.v_root@ == y.v_root@
    &&& x.claimed_product == y.claimed_product
    &&& x.rounds@ == y.rounds@
}

/// The evaluations bind: where a proof is accepted, one with the same commitment, product and
/// rounds but with evaluations for which the relation has another value is refused at the
/// end of the sumcheck. So it is with another evaluation of `f` alone; with another one of
/// `g` alone unless `v(0,ρ)` is zero; with another one of `s_σ` alone unless that or `β` is
/// zero; and with another `v(1,ρ)` alone unless `α` is zero.
pub proof fn lemma_other_evaluations_are_refused<Ch: Challenger, L>(
    s: Ch::State,
    mu: nat,
    x: PermutationProof<L>,
    y: PermutationProof<L>,
    ntt: &AdditiveNttF128,
)
    requires
        same_rounds(x, y),
        perm_verdict::<Ch, L>(s, mu, x, ntt).result is Ok,
        ({
            let rho = perm_verdict::<Ch, L>(s, mu, x, ntt).result->Ok_0;
            let label = seq![Step::Label("flock-perm-v0"@)];
            let beta = drawn::<Ch>(s, label);
            let gamma = drawn::<Ch>(s, label.push(Step::Sample));
            let alpha = drawn::<Ch>(s, commit_script(x.v_root@, x.claimed_product));
            let same_v = x.v_x0 == y.v_x0 && x.v_x1 == y.v_x1 && x.v_0x == y.v_0x;
            ||| relation_value(x, beta, gamma, alpha, rho) != relation_value(
                y,
                beta,
                gamma,
                alpha,
                rho,
            )
            ||| same_v && x.v_1x == y.v_1x && x.f_eval != y.f_eval && x.g_eval == y.g_eval
                && x.s_sigma_eval == y.s_sigma_eval
            ||| same_v && x.v_1x == y.v_1x && x.f_eval == y.f_eval && x.g_eval != y.g_eval
                && x.s_sigma_eval == y.s_sigma_eval && x.v_0x != F128::zero()
            ||| same_v && x.v_1x == y.v_1x && x.f_eval == y.f_eval && x.g_eval == y.g_eval
                && x.s_sigma_eval != y.s_sigma_eval && x.v_0x != F128::zero() && beta
                != F128::zero()
            ||| same_v && x.v_1x != y.v_1x && x.f_eval == y.f_eval && x.g_eval == y.g_eval
                && x.s_sigma_eval == y.s_sigma_eval && alpha != F128::zero()
        }),
    ensures
        perm_verdict::<Ch, L>(s, mu, y, ntt).result == Err::<Seq<F128>, VerifyError>(
            VerifyError::SumcheckFinalFailed,
        ),
{
    let rho = perm_verdict::<Ch, L>(s, mu, x, ntt).result->Ok_0;
    lemma_relation_challenges::<Ch>(s, x.v_root@, x.claimed_product, mu);
    let pc = perm_challenges::<Ch>(s, x.v_root@, x.claimed_product, mu);
    let (beta, gamma, alpha) = (pc.mix.beta, pc.mix.gamma, pc.mix.alpha);
    let (a, b) = (
        relation_value(x, beta, gamma, alpha, rho),
        relation_value(y, beta, gamma, alpha, rho),
    );
    if a == b {
        let t = beta * tag_value(rho);
        let (qx, qy) = (
            x.g_eval + beta * x.s_sigma_eval + gamma,
            y.g_eval + beta * y.s_sigma_eval + gamma,
        );
        let (px, py) = (x.f_eval + t + gamma, y.f_eval + t + gamma);
        let (bx, by) = (
            alpha * (x.v_1x + x.v_x0 * x.v_x1),
            alpha * (y.v_1x + y.v_x0 * y.v_x1),
        );
        let (ax, ay) = (x.v_0x * qx, y.v_0x * qy);
        if x.v_1x == y.v_1x {
            lemma_add_cancels(ax + px, ay + py, bx);
            if x.f_eval == y.f_eval {
                lemma_add_cancels(ax, ay, px);
                lemma_mul_cancels(x.v_0x, qx, qy);
                lemma_add_cancels(
                    x.g_eval + beta * x.s_sigma_eval,
                    y.g_eval + beta * y.s_sigma_eval,
                    gamma,
                );
                if x.s_sigma_eval == y.s_sigma_eval {
                    lemma_add_cancels(x.g_eval, y.g_eval, beta * x.s_sigma_eval);
                } else {
                    lemma_add_rules(x.g_eval, beta * x.s_sigma_eval, x.g_eval, x.g_eval);
                    lemma_add_rules(x.g_eval, beta * y.s_sigma_eval, x.g_eval, x.g_eval);
                    lemma_mul_cancels(beta, x.s_sigma_eval, y.s_sigma_eval);
                }
            } else {
                lemma_add_rules(ax, px, px, px);
                lemma_add_rules(ax, py, py, py);
                assert(px == py);
                lemma_add_cancels(x.f_eval + t, y.f_eval + t, gamma);
                lemma_add_cancels(x.f_eval, y.f_eval, t);
            }
        } else {
            lemma_add_rules(ax + px, bx, bx, bx);
            lemma_add_rules(ax + px, by, by, by);
            assert(bx == by);
            let w = x.v_x0 * x.v_x1;
            lemma_mul_cancels(alpha, x.v_1x + w, y.v_1x + w);
            lemma_add_cancels(x.v_1x, y.v_1x, w);
        }
    }
}

proof fn lemma_add_cancels(a: F128, b: F128, c: F128)
    requires
        a + c == b + c,
    ensures
        a == b,
{
    lemma_add_rules(a, c, c, c);
    lemma_add_rules(b, c, c, c);
}

/// The opening of `v` follows in the transcript behind the seven evaluations, in order.
pub proof fn lemma_evaluations_are_observed<Ch: Challenger, L>(
    s: Ch::State,
    mu: nat,
    out: PermutationProof<L>,
    ntt: &AdditiveNttF128,
)
    requires
        perm_verdict::<Ch, L>(s, mu, out, ntt).result is Ok,
    ensures
        perm_verdict::<Ch, L>(s, mu, out, ntt) == crate::permutation::check::v_verdict::<Ch, L>(
            played::<Ch>(
                s,
                start_script(out.v_root@, out.claimed_product, mu) + rounds_script(out.rounds@, mu)
                    + values_script(
                    seq![
                        out.f_eval,
                        out.g_eval,
                        out.s_sigma_eval,
                        out.v_x0,
                        out.v_x1,
                        out.v_1x,
                        out.v_0x,
                    ],
                ),
            ),
            mu,
            out,
            perm_verdict::<Ch, L>(s, mu, out, ntt).result->Ok_0,
            ntt,
        ),
{
    let pc = perm_challenges::<Ch>(s, out.v_root@, out.claimed_product, mu);
    lemma_relation_challenges::<Ch>(s, out.v_root@, out.claimed_product, mu);
    lemma_checked_script::<Ch>(pc.state, out.rounds@, pc.r, mu);
    let start = start_script(out.v_root@, out.claimed_product, mu);
    let rounds = rounds_script(out.rounds@, mu);
    let seven = seq![
        out.f_eval,
        out.g_eval,
        out.s_sigma_eval,
        out.v_x0,
        out.v_x1,
        out.v_1x,
        out.v_0x,
    ];
    assert(seven =~= evals(out.head()));
    lemma_played_concat::<Ch>(s, start, rounds);
    lemma_played_concat::<Ch>(s, start + rounds, values_script(seven));
    lemma_values_played::<Ch>(played::<Ch>(s, start + rounds), seven);
}

/// What is observed up to the opening of `v`: the start, the rounds and the evaluations.
pub open spec fn evaluated_script<L>(out: PermutationProof<L>, mu: nat) -> Seq<Step> {
    start_script(out.v_root@, out.claimed_product, mu) + rounds_script(out.rounds@, mu)
        + values_script(
        seq![
            out.f_eval,
            out.g_eval,
            out.s_sigma_eval,
            out.v_x0,
            out.v_x1,
            out.v_1x,
            out.v_0x,
        ],
    )
}

/// What `v` is claimed to be, all of it: its two halves and its even and odd entries at the
/// point `rho`, and the grand product at the last entry but one.
pub open spec fn claimed_values<L>(out: PermutationProof<L>) -> Seq<F128> {
    seq![out.v_x0, out.v_x1, out.v_1x, out.v_0x, out.claimed_product]
}

/// The tables that the claimed values are inner products of `v` with.
pub open spec fn claimed_tables(rho: Seq<F128>) -> Seq<Seq<F128>> {
    seq![
        eq_table(seq![F128::zero()] + rho),
        eq_table(seq![F128::one()] + rho),
        eq_table(rho.push(F128::one())),
        eq_table(rho.push(F128::zero())),
        eq_table(seq![F128::zero()] + Seq::new(rho.len(), |i: int| F128::one())),
    ]
}

/// An accepted proof opens `v` at all five points. Up to six variables of the tables the
/// opening behind the evaluations is accepted for the five values under the root of `v`;
/// above that the verifier leaves the challenger where a batch of the five values ends.
pub proof fn lemma_accepted_values_are_opened<Ch: Challenger, L>(
    s: Ch::State,
    mu: nat,
    out: PermutationProof<L>,
    ntt: &AdditiveNttF128,
)
    requires
        perm_verdict::<Ch, L>(s, mu, out, ntt).result is Ok,
    ensures
        ({
            let v = perm_verdict::<Ch, L>(s, mu, out, ntt);
            let behind = played::<Ch>(s, evaluated_script(out, mu));
            &&& mu <= 6 ==> (out.v_open matches BatchOpening::BaseFold(open)
                && mixed_verdict::<Ch>(
                behind,
                Commitment {
                    root: out.v_root,
                    params: PcsParams { m: (mu + 8) as usize, log_inv_rate: 1, log_batch_size: 1 },
                },
                Seq::empty(),
                Seq::empty(),
                Seq::empty(),
                claimed_tables(v.result->Ok_0),
                claimed_values(out),
                open,
                ntt,
            ).result is Ok)
            &&& mu > 6 ==> out.v_open is Ligerito && v.state == played::<Ch>(
                behind,
                batch_script(Seq::empty(), claimed_values(out)) + draws(5),
            )
        }),
{
    lemma_evaluations_are_observed::<Ch, L>(s, mu, out, ntt);
    let v = perm_verdict::<Ch, L>(s, mu, out, ntt);
    let rho = v.result->Ok_0;
    assert(v_values(out.head()) =~= claimed_values(out));
    assert(v_tables(rho) =~= claimed_tables(rho));
    lemma_batch_transcript::<Ch>(
        played::<Ch>(s, evaluated_script(out, mu)),
        Seq::empty(),
        claimed_values(out),
    );
}

/// The claim that is left to a recursive backend: on `2^(μ+1)` elements, the sum of the five
/// values, each times its own coefficient.
pub proof fn lemma_backend_target<Ch: Challenger, L>(
    s: Ch::State,
    out: PermutationProof<L>,
    rho: Seq<F128>,
    backend: BackendClaim,
)
    requires
        is_v_claim(backend, v_challenges::<Ch>(s, out.head()), out.head(), rho),
    ensures
        backend.log_n == rho.len() + 1,
        backend.reduced.gammas_pd@.len() == 5,
        backend.reduced.target_combined == sum(
            5,
            |k: int|
                drawn::<Ch>(
                    s,
                    batch_script(Seq::empty(), claimed_values(out)) + draws(k as nat),
                ) * claimed_values(out)[k],
        ),
{
    let values = claimed_values(out);
    assert(v_values(out.head()) =~= values);
    lemma_batch_transcript::<Ch>(s, Seq::empty(), values);
    let bc = v_challenges::<Ch>(s, out.head());
    let t = claim_targets(bc, Seq::empty(), values);
    let f = |k: int| t[k];
    let all = batch_script(Seq::empty(), values);
    let g = |k: int| drawn::<Ch>(s, all + draws(k as nat)) * values[k];
    assert forall|k: int| 0 <= k < 5 implies #[trigger] f(k) == g(k) by {
        assert(bc.gammas[k] == drawn::<Ch>(s, all + draws(k as nat)));
    }
    lemma_sum_ext(5, f, g);
}

/// The auxiliary polynomial in `n` variables is committed as a message of `2^n` elements, two
/// to a leaf, at rate one half, and opened recursively from eight variables on.
pub proof fn lemma_commitment_parameters(n: nat)
    requires
        1 <= n,
        n + 7 <= usize::MAX,
    ensures
        params_of(n).msg_log() == n,
        params_of(n).m == n + 7,
        params_of(n).log_batch_size == 1,
        params_of(n).log_inv_rate == 1,
        recursion_is_feasible(n) <==> n >= 8,
{
}

} // verus!
