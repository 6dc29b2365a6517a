//! What a lincheck proof is held to: the transcript that it follows, and the claims that it
//! binds.
use vstd::arithmetic::power2::pow2;
use vstd::prelude::*;
use crate::challenger::script::{ascii, drawn, lemma_played_concat, lemma_played_push, played, Step};
use crate::challenger::Challenger;
use crate::field::gf2_128::{
    lemma_add_rules, lemma_mul_cancels, lemma_mul_commutes, lemma_mul_distributes, lemma_mul_units,
};
use crate::field::phi8::phi8_spec;
use crate::field::{F128, F8};
use crate::lincheck::circuit::LincheckCircuit;
use crate::lincheck::fold::{fold_term, lemma_stripes, quirky_table, quirky_weight, stripe_bit};
use crate::lincheck::laws::{
    a_entries, b_entries, lemma_initial_sum, lemma_lockstep, lemma_prover_shape, product_bits,
    quirky_value,
};
use crate::lincheck::protocol::{
    lincheck_label, opening, prover_inputs_fit, prover_rounds, prover_transcript, shape_holds,
    verdict, verifier_rounds, z_vector, ClaimView, QuirkyPoint, VerifyError,
};
use crate::r1cs::laws::{bit_value, lemma_one_term};
use crate::zerocheck::laws::{
    corner, lemma_eq_weight_at_corner, lemma_lagrange_weights_interpolate, poly_value,
};
use crate::zerocheck::multilinear::{
    dot, eq_weight, lagrange_table, lagrange_weight, round_value,
};

verus! {

// ---------------------------------------------------------------------------
// The transcript
// ---------------------------------------------------------------------------

/// The start of the transcript: the label, then `α`, then, with a pinned wire, `β`.
pub open spec fn opening_script(pinned: bool) -> Seq<Step> {
    if pinned {
        seq![Step::Label("flock-lincheck-v0"@), Step::Sample, Step::Sample]
    } else {
        seq![Step::Label("flock-lincheck-v0"@), Step::Sample]
    }
}

/// The first `t` rounds: both parts of a message are observed, then a challenge is sampled.
pub open spec fn rounds_script(messages: Seq<(F128, F128)>, t: nat) -> Seq<Step>
    decreases t,
{
    if t == 0 {
        Seq::empty()
    } else {
        rounds_script(messages, (t - 1) as nat).push(Step::Element(messages[t - 1].0)).push(
            Step::Element(messages[t - 1].1),
        ).push(Step::Sample)
    }
}

/// What is observed before the challenge of round `i` is sampled.
pub open spec fn before_round_challenge(
    pinned: bool,
    messages: Seq<(F128, F128)>,
    i: nat,
) -> Seq<Step> {
    opening_script(pinned) + rounds_script(messages, i).push(
        Step::Element(messages[i as int].0),
    ).push(Step::Element(messages[i as int].1))
}

/// What is observed before the challenge of the skipped variables is sampled.
pub open spec fn before_skip_challenge(
    pinned: bool,
    messages: Seq<(F128, F128)>,
    z_partial: Seq<F128>,
) -> Seq<Step> {
    opening_script(pinned) + rounds_script(messages, messages.len()).push(
        Step::Elements(z_partial),
    )
}

proof fn lemma_opening_script<Ch: Challenger, C: LincheckCircuit>(
    s: Ch::State,
    circuit: &C,
    eq: Seq<F128>,
)
    ensures
        ({
            let o = opening::<Ch, C>(s, circuit, eq);
            let label = seq![Step::Label("flock-lincheck-v0"@)];
            &&& o.alpha == drawn::<Ch>(s, label)
            &&& circuit.pin() is Some ==> o.beta == drawn::<Ch>(s, label.push(Step::Sample))
            &&& o.state == played::<Ch>(s, opening_script(circuit.pin() is Some))
        }),
{
    reveal_strlit("flock-lincheck-v0");
    let text = "flock-lincheck-v0"@;
    assert(lincheck_label() =~= ascii(text));
    let none = Seq::<Step>::empty();
    let label = seq![Step::Label(text)];
    assert(label =~= none.push(Step::Label(text)));
    lemma_played_push::<Ch>(s, none, Step::Label(text));
    lemma_played_push::<Ch>(s, label, Step::Sample);
    lemma_played_push::<Ch>(s, label.push(Step::Sample), Step::Sample);
    assert(opening_script(false) =~= label.push(Step::Sample));
    assert(opening_script(true) =~= label.push(Step::Sample).push(Step::Sample));
}

proof fn lemma_round_played<Ch: Challenger>(s: Ch::State, script: Seq<Step>, m: (F128, F128))
    ensures
        ({
            let observed = script.push(Step::Element(m.0)).push(Step::Element(m.1));
            let at = Ch::after_f128(Ch::after_f128(played::<Ch>(s, script), m.0), m.1);
            &&& played::<Ch>(s, observed) == at
            &&& played::<Ch>(s, observed.push(Step::Sample)) == Ch::after_sample(at)
        }),
{
    let first = script.push(Step::Element(m.0));
    lemma_played_push::<Ch>(s, script, Step::Element(m.0));
    lemma_played_push::<Ch>(s, first, Step::Element(m.1));
    lemma_played_push::<Ch>(s, first.push(Step::Element(m.1)), Step::Sample);
}

proof fn lemma_verifier_script<Ch: Challenger>(
    s: Ch::State,
    comb: Seq<F128>,
    target: F128,
    messages: Seq<(F128, F128)>,
    t: nat,
)
    ensures
        ({
            let v = verifier_rounds::<Ch>(s, comb, target, messages, t);
            &&& v.state == played::<Ch>(s, rounds_script(messages, t))
            &&& v.challenges.len() == t
            &&& forall|i: int|
                0 <= i < t ==> #[trigger] v.challenges[i] == drawn::<Ch>(
                    s,
                    rounds_script(messages, i as nat).push(Step::Element(messages[i].0)).push(
                        Step::Element(messages[i].1),
                    ),
                )
        }),
    decreases t,
{
    if t > 0 {
        lemma_verifier_script::<Ch>(s, comb, target, messages, (t - 1) as nat);
        lemma_round_played::<Ch>(s, rounds_script(messages, (t - 1) as nat), messages[t - 1]);
    }
}

proof fn lemma_prover_script<Ch: Challenger>(
    s: Ch::State,
    comb: Seq<F128>,
    z: Seq<F128>,
    n: nat,
    t: nat,
)
    requires
        t <= n,
    ensures
        ({
            let messages = prover_rounds::<Ch>(s, comb, z, n).messages;
            let p = prover_rounds::<Ch>(s, comb, z, t);
            &&& messages.len() == n
            &&& p.messages == messages.take(t as int)
            &&& p.state == played::<Ch>(s, rounds_script(messages, t))
            &&& p.challenges.len() == t
            &&& forall|i: int|
                0 <= i < t ==> #[trigger] p.challenges[i] == drawn::<Ch>(
                    s,
                    rounds_script(messages, i as nat).push(Step::Element(messages[i].0)).push(
                        Step::Element(messages[i].1),
                    ),
                )
        }),
    decreases t, n,
{
    let messages = prover_rounds::<Ch>(s, comb, z, n).messages;
    if t < n {
        lemma_prover_prefix::<Ch>(s, comb, z, t, n);
    } else {
        lemma_prover_prefix::<Ch>(s, comb, z, n, n);
    }
    if t > 0 {
        lemma_prover_script::<Ch>(s, comb, z, n, (t - 1) as nat);
        lemma_prover_prefix::<Ch>(s, comb, z, t, n);
        let p = prover_rounds::<Ch>(s, comb, z, t);
        lemma_prover_prefix::<Ch>(s, comb, z, t, t);
        assert(p.messages[t - 1] == messages[t - 1]);
        lemma_round_played::<Ch>(s, rounds_script(messages, (t - 1) as nat), messages[t - 1]);
    }
}

/// Earlier messages stay.
proof fn lemma_prover_prefix<Ch: Challenger>(
    s: Ch::State,
    comb: Seq<F128>,
    z: Seq<F128>,
    t: nat,
    n: nat,
)
    requires
        t <= n,
    ensures
        prover_rounds::<Ch>(s, comb, z, n).messages.len() == n,
        prover_rounds::<Ch>(s, comb, z, t).messages.len() == t,
        prover_rounds::<Ch>(s, comb, z, n).messages.take(t as int) == prover_rounds::<Ch>(
            s,
            comb,
            z,
            t,
        ).messages,
    decreases n,
{
    if n > 0 {
        if t < n {
            lemma_prover_prefix::<Ch>(s, comb, z, t, (n - 1) as nat);
        } else {
            lemma_prover_prefix::<Ch>(s, comb, z, (n - 1) as nat, (n - 1) as nat);
        }
    }
    let all = prover_rounds::<Ch>(s, comb, z, n).messages;
    if t == n {
        assert(all.take(t as int) =~= all);
    } else {
        let prev = prover_rounds::<Ch>(s, comb, z, (n - 1) as nat).messages;
        assert(all.take(t as int) =~= prev.take(t as int));
    }
}

/// The verifier's transcript: the challenges of the claim are those that the challenger
/// gives once the label, all the messages up to the round and, for the skipped
/// variables, the partial vector are observed; on a proof of the right shape the
/// challenger is left behind the same list, whatever the verdict.
pub proof fn lemma_verifier_transcript<Ch: Challenger, C: LincheckCircuit>(
    s: Ch::State,
    m: usize,
    k_log: usize,
    k_skip: usize,
    circuit: &C,
    x_ab: QuirkyPoint,
    v_a: F128,
    v_b: F128,
    messages: Seq<(F128, F128)>,
    z_partial: Seq<F128>,
)
    requires
        shape_holds(m, k_log, k_skip, circuit, x_ab, messages, z_partial),
        k_log <= m,
    ensures
        ({
            let v = verdict::<Ch, C>(
                s,
                m,
                k_log,
                k_skip,
                circuit,
                x_ab,
                v_a,
                v_b,
                messages,
                z_partial,
            );
            let pinned = circuit.pin() is Some;
            let last = before_skip_challenge(pinned, messages, z_partial);
            match v.result {
                Err(e) => {
                    &&& e == VerifyError::ConsistencyFailed { which: "sumcheck-final" }
                    &&& v.state == played::<Ch>(s, last)
                },
                Ok(c) => {
                    &&& c.r_inner_rest.len() == messages.len()
                    &&& forall|i: int|
                        0 <= i < messages.len() ==> c.r_inner_rest[messages.len() - 1 - i]
                            == drawn::<Ch>(
                            s,
                            #[trigger] before_round_challenge(pinned, messages, i as nat),
                        )
                    &&& c.r_inner_skip == drawn::<Ch>(s, last)
                    &&& v.state == played::<Ch>(s, last.push(Step::Sample))
                },
            }
        }),
{
    let table = quirky_table(x_ab.z_skip, x_ab.x_inner_rest@, k_skip as nat);
    let o = opening::<Ch, C>(s, circuit, table);
    let pinned = circuit.pin() is Some;
    let start = opening_script(pinned);
    lemma_opening_script::<Ch, C>(s, circuit, table);
    let target = crate::lincheck::protocol::initial_target(circuit, o.alpha, o.beta, v_a, v_b);
    let n = messages.len();
    lemma_verifier_script::<Ch>(o.state, o.comb, target, messages, n);
    let script = rounds_script(messages, n);
    lemma_played_push::<Ch>(o.state, script, Step::Elements(z_partial));
    lemma_played_concat::<Ch>(s, start, script.push(Step::Elements(z_partial)));
    let last = before_skip_challenge(pinned, messages, z_partial);
    lemma_played_push::<Ch>(s, last, Step::Sample);
    assert forall|i: int| 0 <= i < n implies drawn::<Ch>(
        s,
        #[trigger] before_round_challenge(pinned, messages, i as nat),
    ) == drawn::<Ch>(
        o.state,
        rounds_script(messages, i as nat).push(Step::Element(messages[i].0)).push(
            Step::Element(messages[i].1),
        ),
    ) by {
        lemma_played_concat::<Ch>(
            s,
            start,
            rounds_script(messages, i as nat).push(Step::Element(messages[i].0)).push(
                Step::Element(messages[i].1),
            ),
        );
    }
}

/// The prover's transcript is the verifier's, with the prover's own messages.
pub proof fn lemma_prover_transcript<Ch: Challenger, C: LincheckCircuit>(
    s: Ch::State,
    circuit: &C,
    x_ab: QuirkyPoint,
    k_skip: nat,
    z_vec: Seq<F128>,
)
    ensures
        ({
            let t = prover_transcript::<Ch, C>(s, circuit, x_ab, k_skip, z_vec);
            let pinned = circuit.pin() is Some;
            let last = before_skip_challenge(pinned, t.messages, t.z_partial);
            &&& t.messages.len() == x_ab.x_inner_rest@.len()
            &&& t.claim.r_inner_rest.len() == t.messages.len()
            &&& forall|i: int|
                0 <= i < t.messages.len() ==> t.claim.r_inner_rest[t.messages.len() - 1 - i]
                    == drawn::<Ch>(
                    s,
                    #[trigger] before_round_challenge(pinned, t.messages, i as nat),
                )
            &&& t.claim.r_inner_skip == drawn::<Ch>(s, last)
            &&& t.state == played::<Ch>(s, last.push(Step::Sample))
        }),
{
    let table = quirky_table(x_ab.z_skip, x_ab.x_inner_rest@, k_skip);
    let o = opening::<Ch, C>(s, circuit, table);
    let t = prover_transcript::<Ch, C>(s, circuit, x_ab, k_skip, z_vec);
    let pinned = circuit.pin() is Some;
    let start = opening_script(pinned);
    lemma_opening_script::<Ch, C>(s, circuit, table);
    let n = x_ab.x_inner_rest@.len();
    lemma_prover_script::<Ch>(o.state, o.comb, z_vec, n, n);
    let messages = t.messages;
    let script = rounds_script(messages, n);
    lemma_played_push::<Ch>(o.state, script, Step::Elements(t.z_partial));
    lemma_played_concat::<Ch>(s, start, script.push(Step::Elements(t.z_partial)));
    let last = before_skip_challenge(pinned, messages, t.z_partial);
    lemma_played_push::<Ch>(s, last, Step::Sample);
    assert forall|i: int| 0 <= i < n implies drawn::<Ch>(
        s,
        #[trigger] before_round_challenge(pinned, messages, i as nat),
    ) == drawn::<Ch>(
        o.state,
        rounds_script(messages, i as nat).push(Step::Element(messages[i].0)).push(
            Step::Element(messages[i].1),
        ),
    ) by {
        lemma_played_concat::<Ch>(
            s,
            start,
            rounds_script(messages, i as nat).push(Step::Element(messages[i].0)).push(
                Step::Element(messages[i].1),
            ),
        );
    }
}

// ---------------------------------------------------------------------------
// Claims
// ---------------------------------------------------------------------------

/// A round keeps different claims apart, unless its challenge is one.
proof fn lemma_round_separates(x: F128, y: F128, e1: F128, einf: F128, r: F128)
    requires
        x != y,
        r != F128::one(),
    ensures
        round_value(x, e1, einf, r) != round_value(y, e1, einf, r),
{
    // The value is `claim·(1 + r)` plus what does not depend on the claim.
    let rest = (einf * r * r + einf * r) + e1;
    let c = F128::one() + r;
    assert forall|q: F128| #[trigger] round_value(q, e1, einf, r) == q * c + rest by {
        let e0 = q + e1;
        lemma_add_rules(q, e1, e1, e1);
        assert(e0 + e1 + einf == q + einf);
        lemma_mul_distributes(r, q, einf);
        lemma_mul_distributes(q, F128::one(), r);
        lemma_mul_units(q);
        let (w, u, v) = (einf * r * r, q * r, einf * r);
        assert(round_value(q, e1, einf, r) == (w + (u + v)) + (q + e1));
        lemma_add_rules(w, u + v, q, e1);
        lemma_add_rules(u, v, q, w);
        lemma_add_rules(w, v, u, u);
        lemma_add_rules(w, u, v, v);
        lemma_add_rules(u, w, v, q);
        lemma_add_rules(u, w + v, q + e1, q);
        lemma_add_rules(u, w + v, q, e1);
        lemma_add_rules(q, u, u, u);
        lemma_add_rules(u + q, w + v, e1, e1);
        assert(w + (u + v) == u + (w + v)) by {
            lemma_add_rules(w, u, v, v);
            lemma_add_rules(u, w, v, v);
        }
        assert((u + (w + v)) + (q + e1) == (u + q) + ((w + v) + e1));
    }
    if round_value(x, e1, einf, r) == round_value(y, e1, einf, r) {
        lemma_add_rules(x * c, rest, rest, rest);
        lemma_add_rules(y * c, rest, rest, rest);
        assert(x * c == y * c);
        crate::field::gf2_128::lemma_mul_commutes(x, c);
        crate::field::gf2_128::lemma_mul_commutes(y, c);
        if c == F128::zero() {
            lemma_add_rules(F128::one(), r, r, r);
            lemma_add_rules(r, r, r, r);
        }
        lemma_mul_cancels(c, x, y);
    }
}

/// The rounds keep different targets apart, unless a challenge is one.
proof fn lemma_rounds_separate<Ch: Challenger>(
    s: Ch::State,
    comb: Seq<F128>,
    targets: (F128, F128),
    messages: Seq<(F128, F128)>,
    t: nat,
)
    ensures
        ({
            let x = verifier_rounds::<Ch>(s, comb, targets.0, messages, t);
            let y = verifier_rounds::<Ch>(s, comb, targets.1, messages, t);
            &&& x.state == y.state
            &&& x.comb == y.comb
            &&& x.challenges == y.challenges
            &&& x.challenges.len() == t
            &&& targets.0 != targets.1 && (forall|i: int|
                0 <= i < t ==> #[trigger] x.challenges[i] != F128::one()) ==> x.running
                != y.running
        }),
    decreases t,
{
    if t > 0 {
        let p = (t - 1) as nat;
        lemma_rounds_separate::<Ch>(s, comb, targets, messages, p);
        let x0 = verifier_rounds::<Ch>(s, comb, targets.0, messages, p);
        let y0 = verifier_rounds::<Ch>(s, comb, targets.1, messages, p);
        let x = verifier_rounds::<Ch>(s, comb, targets.0, messages, t);
        if targets.0 != targets.1 && (forall|i: int|
            0 <= i < t ==> #[trigger] x.challenges[i] != F128::one()) {
            assert forall|i: int| 0 <= i < p implies #[trigger] x0.challenges[i]
                != F128::one() by {
                assert(x.challenges[i] == x0.challenges[i]);
            }
            let (e1, einf) = messages[t - 1];
            lemma_round_separates(x0.running, y0.running, e1, einf, x.challenges[t - 1]);
        }
    }
}

/// Both claims bind: where a proof is accepted for the values `v_a` and `v_b`, it is refused
/// for any `w_a` and `w_b` with `α·w_a + w_b ≠ α·v_a + v_b`, where `α` is the first
/// challenge behind the label, as far as no challenge of a round is one. In particular no
/// other value is accepted for `B·z`, and none for `A·z` unless `α` is zero.
pub proof fn lemma_other_claims_are_refused<Ch: Challenger, C: LincheckCircuit>(
    s: Ch::State,
    m: usize,
    k_log: usize,
    k_skip: usize,
    circuit: &C,
    x_ab: QuirkyPoint,
    v: (F128, F128),
    w: (F128, F128),
    messages: Seq<(F128, F128)>,
    z_partial: Seq<F128>,
)
    requires
        ({
            let alpha = drawn::<Ch>(s, seq![Step::Label("flock-lincheck-v0"@)]);
            let pinned = circuit.pin() is Some;
            &&& verdict::<Ch, C>(
                s,
                m,
                k_log,
                k_skip,
                circuit,
                x_ab,
                v.0,
                v.1,
                messages,
                z_partial,
            ).result is Ok
            &&& forall|i: int|
                0 <= i < messages.len() ==> drawn::<Ch>(
                    s,
                    #[trigger] before_round_challenge(pinned, messages, i as nat),
                ) != F128::one()
            &&& {
                ||| alpha * v.0 + v.1 != alpha * w.0 + w.1
                ||| v.0 == w.0 && v.1 != w.1
                ||| v.0 != w.0 && v.1 == w.1 && alpha != F128::zero()
            }
        }),
    ensures
        verdict::<Ch, C>(
            s,
            m,
            k_log,
            k_skip,
            circuit,
            x_ab,
            w.0,
            w.1,
            messages,
            z_partial,
        ).result == Err::<ClaimView, VerifyError>(
            VerifyError::ConsistencyFailed { which: "sumcheck-final" },
        ),
{
    let table = quirky_table(x_ab.z_skip, x_ab.x_inner_rest@, k_skip as nat);
    let o = opening::<Ch, C>(s, circuit, table);
    lemma_opening_script::<Ch, C>(s, circuit, table);
    let alpha = o.alpha;
    lemma_targets_differ(alpha, v, w);
    let (tv, tw) = (
        crate::lincheck::protocol::initial_target(circuit, o.alpha, o.beta, v.0, v.1),
        crate::lincheck::protocol::initial_target(circuit, o.alpha, o.beta, w.0, w.1),
    );
    assert(tv != tw) by {
        lemma_add_rules(alpha * v.0 + v.1, o.beta, o.beta, o.beta);
        lemma_add_rules(alpha * w.0 + w.1, o.beta, o.beta, o.beta);
    }
    let n = messages.len();
    lemma_rounds_separate::<Ch>(o.state, o.comb, (tv, tw), messages, n);
    lemma_verifier_script::<Ch>(o.state, o.comb, tv, messages, n);
    lemma_verifier_transcript::<Ch, C>(
        s,
        m,
        k_log,
        k_skip,
        circuit,
        x_ab,
        v.0,
        v.1,
        messages,
        z_partial,
    );
    let x = verifier_rounds::<Ch>(o.state, o.comb, tv, messages, n);
    let pinned = circuit.pin() is Some;
    assert forall|i: int| 0 <= i < n implies #[trigger] x.challenges[i] != F128::one() by {
        let c = x.challenges.reverse();
        assert(c[n - 1 - i] == x.challenges[i]);
        assert(drawn::<Ch>(s, before_round_challenge(pinned, messages, i as nat)) != F128::one());
    }
}

proof fn lemma_targets_differ(alpha: F128, v: (F128, F128), w: (F128, F128))
    requires
        ({
            ||| alpha * v.0 + v.1 != alpha * w.0 + w.1
            ||| v.0 == w.0 && v.1 != w.1
            ||| v.0 != w.0 && v.1 == w.1 && alpha != F128::zero()
        }),
    ensures
        alpha * v.0 + v.1 != alpha * w.0 + w.1,
{
    if alpha * v.0 + v.1 == alpha * w.0 + w.1 {
        if v.0 == w.0 {
            lemma_add_rules(alpha * v.0, v.1, v.1, v.1);
            lemma_add_rules(alpha * v.0, w.1, w.1, w.1);
        } else {
            lemma_add_rules(alpha * v.0, v.1, v.1, v.1);
            lemma_add_rules(alpha * w.0, w.1, w.1, w.1);
            lemma_mul_cancels(alpha, v.0, w.0);
        }
    }
}

/// The pinned wire binds: an honest proof of true claims on `A·z` and `B·z` is refused where
/// the pinned column does not extend to one at the outer point, as far as `β`, the second
/// challenge behind the label, is not zero and no challenge of a round is one.
pub proof fn lemma_unpinned_witness_is_refused<Ch: Challenger, C: LincheckCircuit>(
    s: Ch::State,
    circuit: &C,
    z: Seq<u8>,
    m: usize,
    k_log: usize,
    k_skip: usize,
    x_ab: QuirkyPoint,
)
    requires
        prover_inputs_fit(z, m, k_log, k_skip, circuit, x_ab),
        k_log <= m,
        circuit.pin() matches Some(col) && crate::algebra::sum(
            pow2(x_ab.x_outer@.len()),
            |o: int|
                eq_weight(x_ab.x_outer@, o as nat) * bit_value(
                    stripe_bit(z, pow2(k_log as nat) as int, col as int, o),
                ),
        ) != F128::one(),
        drawn::<Ch>(s, seq![Step::Label("flock-lincheck-v0"@), Step::Sample]) != F128::zero(),
        ({
            let z_vec = z_vector(z, k_log, pow2(k_log as nat) as usize, x_ab);
            let t = prover_transcript::<Ch, C>(s, circuit, x_ab, k_skip as nat, z_vec);
            forall|i: int|
                0 <= i < t.messages.len() ==> drawn::<Ch>(
                    s,
                    #[trigger] before_round_challenge(true, t.messages, i as nat),
                ) != F128::one()
        }),
    ensures
        ({
            let z_vec = z_vector(z, k_log, pow2(k_log as nat) as usize, x_ab);
            let t = prover_transcript::<Ch, C>(s, circuit, x_ab, k_skip as nat, z_vec);
            let v_a = quirky_value(
                product_bits(a_entries(circuit), z, k_log as nat),
                k_log as nat,
                k_skip as nat,
                x_ab.z_skip,
                x_ab.x_inner_rest@,
                x_ab.x_outer@,
            );
            let v_b = quirky_value(
                product_bits(b_entries(circuit), z, k_log as nat),
                k_log as nat,
                k_skip as nat,
                x_ab.z_skip,
                x_ab.x_inner_rest@,
                x_ab.x_outer@,
            );
            verdict::<Ch, C>(
                s,
                m,
                k_log,
                k_skip,
                circuit,
                x_ab,
                v_a,
                v_b,
                t.messages,
                t.z_partial,
            ).result == Err::<ClaimView, VerifyError>(
                VerifyError::ConsistencyFailed { which: "sumcheck-final" },
            )
        }),
{
    let k = pow2(k_log as nat);
    let col = circuit.pin()->Some_0 as int;
    lemma_stripes(m as nat, k_log as nat);
    let n = (k_log - k_skip) as nat;
    let xo = x_ab.x_outer@;
    let z_vec = z_vector(z, k_log, k as usize, x_ab);
    let table = quirky_table(x_ab.z_skip, x_ab.x_inner_rest@, k_skip as nat);
    let o = opening::<Ch, C>(s, circuit, table);
    lemma_opening_script::<Ch, C>(s, circuit, table);
    assert(seq![Step::Label("flock-lincheck-v0"@), Step::Sample] =~= seq![
        Step::Label("flock-lincheck-v0"@),
    ].push(Step::Sample));
    lemma_initial_sum::<Ch, C>(s, circuit, z, m, k_log, k_skip, x_ab);
    lemma_lockstep::<Ch>(o.state, o.comb, z_vec, k_log as nat, n, n);
    lemma_prover_shape::<Ch>(o.state, o.comb, z_vec, k_log as nat, n);
    let t = prover_transcript::<Ch, C>(s, circuit, x_ab, k_skip as nat, z_vec);
    lemma_prover_transcript::<Ch, C>(s, circuit, x_ab, k_skip as nat, z_vec);
    let (v_a, v_b) = (
        quirky_value(
            product_bits(a_entries(circuit), z, k_log as nat),
            k_log as nat,
            k_skip as nat,
            x_ab.z_skip,
            x_ab.x_inner_rest@,
            xo,
        ),
        quirky_value(
            product_bits(b_entries(circuit), z, k_log as nat),
            k_log as nat,
            k_skip as nat,
            x_ab.z_skip,
            x_ab.x_inner_rest@,
            xo,
        ),
    );
    let base = o.alpha * v_a + v_b;
    let proved = dot(o.comb, z_vec);
    let claimed = crate::lincheck::protocol::initial_target(circuit, o.alpha, o.beta, v_a, v_b);
    let p = z_vec[col];
    assert(p != F128::one()) by {
        crate::algebra::lemma_sum_ext(
            pow2(xo.len()),
            fold_term(z, k as int, crate::zerocheck::multilinear::eq_table(xo), col),
            |o: int|
                eq_weight(xo, o as nat) * bit_value(
                    stripe_bit(z, k as int, col, o),
                ),
        );
    }
    assert(claimed != proved) by {
        if claimed == proved {
            lemma_add_rules(base, o.beta, o.beta, o.beta);
            lemma_add_rules(base, o.beta * p, o.beta * p, o.beta * p);
            assert(o.beta == o.beta * p);
            lemma_mul_units(o.beta);
            lemma_mul_cancels(o.beta, p, F128::one());
        }
    }
    lemma_rounds_separate::<Ch>(o.state, o.comb, (proved, claimed), t.messages, n);
    lemma_verifier_script::<Ch>(o.state, o.comb, proved, t.messages, n);
    let x = verifier_rounds::<Ch>(o.state, o.comb, proved, t.messages, n);
    assert forall|i: int| 0 <= i < n implies #[trigger] x.challenges[i] != F128::one() by {
        assert(t.claim.r_inner_rest[n - 1 - i] == x.challenges[i]);
        assert(drawn::<Ch>(s, before_round_challenge(true, t.messages, i as nat)) != F128::one());
    }
}

/// The claim of an accepted proof is the value at the last challenge of the polynomial whose
/// values the partial vector holds: whatever the coefficients, as many as there are entries.
pub proof fn lemma_accepted_claim_interpolates<Ch: Challenger, C: LincheckCircuit>(
    s: Ch::State,
    m: usize,
    k_log: usize,
    k_skip: usize,
    circuit: &C,
    x_ab: QuirkyPoint,
    v_a: F128,
    v_b: F128,
    messages: Seq<(F128, F128)>,
    z_partial: Seq<F128>,
    coefficients: Seq<F128>,
)
    requires
        k_skip <= 8,
        coefficients.len() <= pow2(k_skip as nat),
        forall|i: int|
            0 <= i < z_partial.len() ==> #[trigger] z_partial[i] == poly_value(
                coefficients,
                phi8_spec(F8(i as u8)),
            ),
        verdict::<Ch, C>(
            s,
            m,
            k_log,
            k_skip,
            circuit,
            x_ab,
            v_a,
            v_b,
            messages,
            z_partial,
        ).result is Ok,
    ensures
        ({
            let c = verdict::<Ch, C>(
                s,
                m,
                k_log,
                k_skip,
                circuit,
                x_ab,
                v_a,
                v_b,
                messages,
                z_partial,
            ).result->Ok_0;
            c.w == poly_value(coefficients, c.r_inner_skip)
        }),
{
    let c = verdict::<Ch, C>(
        s,
        m,
        k_log,
        k_skip,
        circuit,
        x_ab,
        v_a,
        v_b,
        messages,
        z_partial,
    ).result->Ok_0;
    let n = pow2(k_skip as nat);
    let t = lagrange_table(k_skip as nat, c.r_inner_skip);
    lemma_lagrange_weights_interpolate(k_skip as nat, c.r_inner_skip, coefficients);
    let f = |i: int| t[i] * z_partial[i];
    let g = |j: int| poly_value(coefficients, phi8_spec(F8(j as u8))) * t[j];
    assert forall|i: int| 0 <= i < n implies #[trigger] f(i) == g(i) by {
        lemma_mul_commutes(t[i], z_partial[i]);
    }
    crate::algebra::lemma_sum_ext(n, f, g);
    crate::algebra::lemma_sum_ext(
        n,
        g,
        |j: int|
            poly_value(coefficients, phi8_spec(F8(j as u8))) * lagrange_table(
                k_skip as nat,
                c.r_inner_skip,
            )[j],
    );
}

/// Only proofs of the right shape are accepted; for the others the first size that is wrong is
/// reported, before anything is observed.
pub proof fn lemma_wrong_sizes_are_reported<Ch: Challenger, C: LincheckCircuit>(
    s: Ch::State,
    m: usize,
    k_log: usize,
    k_skip: usize,
    circuit: &C,
    x_ab: QuirkyPoint,
    v_a: F128,
    v_b: F128,
    messages: Seq<(F128, F128)>,
    z_partial: Seq<F128>,
)
    requires
        k_log <= m,
    ensures
        ({
            let v = verdict::<Ch, C>(
                s,
                m,
                k_log,
                k_skip,
                circuit,
                x_ab,
                v_a,
                v_b,
                messages,
                z_partial,
            );
            let inner = x_ab.x_inner_rest@.len() == k_log - k_skip;
            let outer = x_ab.x_outer@.len() == m - k_log;
            let side = circuit.side() == pow2(k_log as nat);
            let rounds = messages.len() == k_log - k_skip;
            let partial = z_partial.len() == pow2(k_skip as nat);
            &&& v.result is Ok ==> k_skip <= k_log && inner && outer && side && rounds && partial
            &&& k_skip > k_log ==> v.state == s && v.result == Err::<ClaimView, VerifyError>(
                VerifyError::KSkipExceedsKLog { k_skip, k_log },
            )
            &&& k_skip <= k_log && !inner ==> v.state == s && (v.result matches Err(
                VerifyError::BadInnerRestLength { which, expected, got },
            ) && which == "x_ab" && expected == k_log - k_skip)
            &&& k_skip <= k_log && inner && !outer ==> v.state == s && (v.result matches Err(
                VerifyError::BadOuterLength { which, expected, got },
            ) && which == "x_ab" && expected == m - k_log)
            &&& k_skip <= k_log && inner && outer && !side ==> v.state == s && (
            v.result matches Err(
                VerifyError::BadMatrixShape { which, expected, got_rows, got_cols },
            ) && which == "circuit")
            &&& k_skip <= k_log && inner && outer && side && !rounds ==> v.state == s && (
            v.result matches Err(VerifyError::BadVectorLength { which, expected, got }) && which
                == "rounds" && expected == k_log - k_skip)
            &&& k_skip <= k_log && inner && outer && side && rounds && !partial ==> v.state == s
                && (v.result matches Err(VerifyError::BadVectorLength { which, expected, got })
                && which == "z_partial")
        }),
{
}

// ---------------------------------------------------------------------------
// Values at corners
// ---------------------------------------------------------------------------

/// The value of a Boolean function at a corner is the bit there: at the node of skip index
/// `i`, corner `j` of the other inner variables and corner `o` of the outer ones it is the
/// bit at inner index `j·2^k_skip + i` and outer index `o`.
pub proof fn lemma_quirky_value_at_corner(
    bits: spec_fn(int, int) -> bool,
    k_log: nat,
    k_skip: nat,
    n_log: nat,
    i: nat,
    j: nat,
    o: nat,
)
    requires
        k_skip <= 8,
        k_skip <= k_log,
        i < pow2(k_skip),
        j < pow2((k_log - k_skip) as nat),
        o < pow2(n_log),
    ensures
        quirky_value(
            bits,
            k_log,
            k_skip,
            phi8_spec(F8(i as u8)),
            corner((k_log - k_skip) as nat, j),
            corner(n_log, o),
        ) == (if bits((j * pow2(k_skip) + i) as int, o as int) {
            F128::one()
        } else {
            F128::zero()
        }),
{
    let l = pow2(k_skip) as int;
    let m = pow2((k_log - k_skip) as nat) as int;
    let k = pow2(k_log);
    let (skip, rest, outer) = (
        phi8_spec(F8(i as u8)),
        corner((k_log - k_skip) as nat, j),
        corner(n_log, o),
    );
    vstd::arithmetic::power2::lemma_pow2_adds(k_skip, (k_log - k_skip) as nat);
    vstd::arithmetic::power2::lemma_pow2_pos(k_skip);
    lemma_lagrange_weights_interpolate(k_skip, skip, Seq::empty());
    let at = j * l + i;
    assert(0 <= at < k) by (nonlinear_arith)
        requires
            at == j * l + i,
            0 <= i < l,
            0 <= j < m,
            k == l * m,
    ;
    let inner = |r: int|
        crate::algebra::sum(
            pow2(outer.len()),
            |q: int| eq_weight(outer, q as nat) * bit_value(bits(r, q)),
        );
    let f = |r: int| quirky_weight(skip, rest, k_skip, r) * inner(r);
    let g = |r: int| bit_value(at == r) * inner(r);
    let terms = |r: int|
        quirky_weight(skip, rest, k_skip, r) * crate::algebra::sum(
            pow2(outer.len()),
            |o: int| eq_weight(outer, o as nat) * bit_value(bits(r, o)),
        );
    assert forall|r: int| 0 <= r < k implies #[trigger] terms(r) == f(r) by {
        crate::algebra::lemma_sum_ext(
            pow2(outer.len()),
            |o: int| eq_weight(outer, o as nat) * bit_value(bits(r, o)),
            |q: int| eq_weight(outer, q as nat) * bit_value(bits(r, q)),
        );
    }
    crate::algebra::lemma_sum_ext(k, terms, f);
    assert forall|r: int| 0 <= r < k implies #[trigger] f(r) == g(r) by {
        let (a, b) = (r % l, r / l);
        vstd::arithmetic::div_mod::lemma_fundamental_div_mod(r, l);
        vstd::arithmetic::div_mod::lemma_mod_bound(r, l);
        assert(0 <= b < m) by (nonlinear_arith)
            requires
                r == l * b + a,
                0 <= r < l * m,
                0 <= a < l,
        ;
        assert(l * b == b * l) by (nonlinear_arith);
        lemma_eq_weight_at_corner((k_log - k_skip) as nat, j, b as nat);
        assert(lagrange_table(k_skip, phi8_spec(F8(i as int as u8)))[a] == bit_value(i == a));
        assert(lagrange_weight(k_skip, skip, a) == lagrange_table(k_skip, skip)[a]);
        let (x, y) = (bit_value(i == a), bit_value(j == b));
        lemma_mul_units(x);
        lemma_mul_units(y);
        assert(x * y == bit_value(at == r)) by {
            if at == r {
                vstd::arithmetic::div_mod::lemma_fundamental_div_mod_converse(
                    at,
                    l,
                    j as int,
                    i as int,
                );
            }
        }
    }
    crate::algebra::lemma_sum_ext(k, f, g);
    lemma_one_term(k, at, inner);
    crate::algebra::lemma_sum_ext(k, g, |r: int| bit_value(at == r) * inner(r));
    let h = |q: int| eq_weight(outer, q as nat) * bit_value(bits(at, q));
    let bit = |q: int| bit_value(bits(at, q));
    let one = |q: int| bit_value(o == q) * bit(q);
    assert forall|q: int| 0 <= q < pow2(n_log) implies #[trigger] h(q) == one(q) by {
        lemma_eq_weight_at_corner(n_log, o, q as nat);
    }
    crate::algebra::lemma_sum_ext(pow2(n_log), h, one);
    lemma_one_term(pow2(n_log), o as int, bit);
    crate::algebra::lemma_sum_ext(pow2(n_log), one, |q: int| bit_value(o as int == q) * bit(q));
    assert(inner(at) == bit_value(bits(at, o as int)));
    assert(crate::algebra::sum(k, f) == inner(at));
    assert(quirky_value(bits, k_log, k_skip, skip, rest, outer) == crate::algebra::sum(k, terms));
}

/// The layout of a striped witness: the bits of eight blocks share a byte, block `o` at
/// binary digit `o mod 8`, and the bytes of a stripe follow the inner index.
pub proof fn lemma_stripe_layout(z: Seq<u8>, k: int, i: int, o: int)
    requires
        o >= 0,
    ensures
        stripe_bit(z, k, i, o) == (z[(o / 8) * k + i] as nat / pow2((o % 8) as nat) % 2 == 1),
{
    let b = z[(o / 8) * k + i];
    let r = (o % 8) as u8;
    vstd::bits::lemma_u8_shr_is_div(b, r);
    let q: u8 = b >> r;
    vstd::bits::lemma_u8_low_bits_mask_is_mod(q, 1);
    vstd::bits::lemma_low_bits_mask_values();
    vstd::arithmetic::power2::lemma2_to64();
}

} // verus!
