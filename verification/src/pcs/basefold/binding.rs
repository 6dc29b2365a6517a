//! What a BaseFold proof is held to: the transcript that it follows, the positions that it
//! opens, and how the opened values hang together.
use vstd::arithmetic::power2::{lemma_pow2_adds, lemma_pow2_pos, pow2};
use vstd::bytes::{lemma_auto_spec_u64_to_from_le_bytes, spec_u64_to_le_bytes};
use vstd::prelude::*;
use crate::challenger::fs::{element_bytes, elements_bytes};
use crate::challenger::script::{
    ascii, drawn, draws, lemma_played_concat, lemma_played_push, played, Step,
};
use crate::challenger::Challenger;
use crate::field::gf2_128::{lemma_add_rules, lemma_mul_distributes, lemma_mul_units};
use crate::field::F128;
use crate::hash::{sha256, Hash32};
use crate::merkle::laws::{
    digests_have_32_bytes, has_second_preimage, have_32_bytes, lemma_multi_proof_binds,
};
use crate::merkle::{
    hash_views, lemma_sorted_positions, merkle_root, sorted_positions,
};
use crate::ntt::AdditiveNttF128;
use crate::pcs::basefold::check::{
    commit_count, constant, epoch_paths_error, epochs_error, final_error, hashes_of,
    initial_hashes, lemma_sorted_from, opened_by, opened_hashes, opener, paths_error, paths_hold,
    proof_root, proof_siblings, proof_verdict, queries_error, query_error, query_leaf, replayed,
};
use crate::pcs::basefold::laws::lemma_replay;
use crate::pcs::basefold::prover::code_of;
use crate::pcs::basefold::{
    basefold_label, epoch_indices, fold_rounds, honest_run, query_position, query_positions,
    root_element, state_after_samples, BaseFoldProof, Code, QueryOpening, VerifyError,
};
use crate::pcs::binding::lemma_draws;
use crate::pcs::fold::{coset_fold_all, lemma_fold_low_to_value, low_message, low_target};
use crate::zerocheck::multilinear::{dot, mle};

verus! {

// ---------------------------------------------------------------------------
// The transcript
// ---------------------------------------------------------------------------

/// The root that is observed after `t` rounds, if one is: that of the row-batched codeword
/// once the lanes are folded, then one after every six rounds, as long as there are rounds
/// left.
pub open spec fn root_after(out: BaseFoldProof, log_batch: nat, t: nat) -> Option<Seq<u8>> {
    let n = out.round_messages@.len();
    if t < 1 || t < log_batch || t >= n || (t - log_batch) % 6 != 0 {
        None
    } else if t == log_batch {
        Some(out.post_row_batch_commit.root@)
    } else {
        Some(out.round_commitments@[(t - log_batch) / 6 - 1].root@)
    }
}

/// The first `t` rounds: both parts of a message, a challenge, and the root if one is due.
pub open spec fn rounds_script(out: BaseFoldProof, log_batch: nat, t: nat) -> Seq<Step>
    decreases t,
{
    if t == 0 {
        Seq::empty()
    } else {
        let m = out.round_messages@[t - 1];
        let sampled = rounds_script(out, log_batch, (t - 1) as nat).push(Step::Element(m.u_0)).push(
            Step::Element(m.u_2),
        ).push(Step::Sample);
        match root_after(out, log_batch, t) {
            Some(root) => sampled.push(Step::Element(root_element(root))),
            None => sampled,
        }
    }
}

/// The label and all the rounds.
pub open spec fn basefold_script(out: BaseFoldProof, log_batch: nat) -> Seq<Step> {
    seq![Step::Label("flock-basefold-v0"@)] + rounds_script(
        out,
        log_batch,
        out.round_messages@.len(),
    )
}

/// What is observed before the challenge of round `i`.
pub open spec fn before_challenge(out: BaseFoldProof, log_batch: nat, i: nat) -> Seq<Step> {
    seq![Step::Label("flock-basefold-v0"@)] + rounds_script(out, log_batch, i).push(
        Step::Element(out.round_messages@[i as int].u_0),
    ).push(Step::Element(out.round_messages@[i as int].u_2))
}

/// A root is observed by its first sixteen bytes.
pub proof fn lemma_root_element_binds(x: Hash32, y: Hash32)
    requires
        root_element(x@) == root_element(y@),
    ensures
        x@.take(16) == y@.take(16),
{
    lemma_auto_spec_u64_to_from_le_bytes();
    let (a, b) = (x@, y@);
    assert(a.subrange(0, 8).len() == 8 && b.subrange(0, 8).len() == 8);
    assert(a.subrange(8, 16).len() == 8 && b.subrange(8, 16).len() == 8);
    assert(spec_u64_to_le_bytes(root_element(a).lo) == a.subrange(0, 8));
    assert(spec_u64_to_le_bytes(root_element(b).lo) == b.subrange(0, 8));
    assert(spec_u64_to_le_bytes(root_element(a).hi) == a.subrange(8, 16));
    assert(spec_u64_to_le_bytes(root_element(b).hi) == b.subrange(8, 16));
    assert(a.take(16) =~= a.subrange(0, 8) + a.subrange(8, 16));
    assert(b.take(16) =~= b.subrange(0, 8) + b.subrange(8, 16));
}

/// The first sixteen bytes of a root are the bytes of the element.
pub proof fn lemma_root_element_bytes(x: Hash32)
    ensures
        element_bytes(root_element(x@)) == x@.take(16),
{
    lemma_auto_spec_u64_to_from_le_bytes();
    let a = x@;
    assert(a.subrange(0, 8).len() == 8 && a.subrange(8, 16).len() == 8);
    assert(a.take(16) =~= a.subrange(0, 8) + a.subrange(8, 16));
}

proof fn lemma_label_played<Ch: Challenger>(s: Ch::State)
    ensures
        played::<Ch>(s, seq![Step::Label("flock-basefold-v0"@)]) == Ch::after_label(
            s,
            basefold_label(),
        ),
{
    reveal_strlit("flock-basefold-v0");
    let text = "flock-basefold-v0"@;
    assert(basefold_label() =~= ascii(text));
    lemma_played_push::<Ch>(s, Seq::empty(), Step::Label(text));
    assert(seq![Step::Label(text)] =~= Seq::<Step>::empty().push(Step::Label(text)));
}

proof fn lemma_replayed_script<Ch: Challenger>(
    s: Ch::State,
    out: BaseFoldProof,
    c: Code,
    target: F128,
    t: nat,
)
    requires
        t <= out.round_messages@.len(),
        c.rounds() == out.round_messages@.len(),
    ensures
        ({
            let p = replayed::<Ch>(s, out, c, target, t);
            &&& p.state == played::<Ch>(s, rounds_script(out, c.log_batch, t))
            &&& p.challenges.len() == t
            &&& forall|i: int|
                0 <= i < t ==> #[trigger] p.challenges[i] == drawn::<Ch>(
                    s,
                    rounds_script(out, c.log_batch, i as nat).push(
                        Step::Element(out.round_messages@[i].u_0),
                    ).push(Step::Element(out.round_messages@[i].u_2)),
                )
        }),
    decreases t,
{
    if t > 0 {
        lemma_replayed_script::<Ch>(s, out, c, target, (t - 1) as nat);
        let m = out.round_messages@[t - 1];
        let before = rounds_script(out, c.log_batch, (t - 1) as nat);
        let first = before.push(Step::Element(m.u_0));
        let both = first.push(Step::Element(m.u_2));
        lemma_played_push::<Ch>(s, before, Step::Element(m.u_0));
        lemma_played_push::<Ch>(s, first, Step::Element(m.u_2));
        lemma_played_push::<Ch>(s, both, Step::Sample);
        assert(c.commits_at(t) == (root_after(out, c.log_batch, t) is Some));
        if let Some(root) = root_after(out, c.log_batch, t) {
            lemma_played_push::<Ch>(
                s,
                both.push(Step::Sample),
                Step::Element(root_element(root)),
            );
        }
    }
}

/// The verifier's transcript and positions: the challenges that an accepted proof yields are
/// those that the challenger gives behind the label, the messages and the roots before
/// them; there are 243 queries at rate one half and 148 at rate one quarter, and query `i`
/// opens the position that the low word of the `i`-th challenge behind all of them gives,
/// modulo the number of positions.
pub proof fn lemma_accepted_transcript<Ch: Challenger>(
    s: Ch::State,
    target: F128,
    out: BaseFoldProof,
    root: Seq<u8>,
    ntt: &AdditiveNttF128,
    log_inv_rate: nat,
    log_batch: nat,
)
    requires
        proof_verdict::<Ch>(s, target, out, root, ntt, log_inv_rate, log_batch).result is Ok,
    ensures
        ({
            let v = proof_verdict::<Ch>(s, target, out, root, ntt, log_inv_rate, log_batch);
            let ch = v.result->Ok_0;
            let n = out.round_messages@.len();
            let all = basefold_script(out, log_batch);
            let positions = pow2((n - log_batch + log_inv_rate) as nat) as int;
            let commits = if n <= log_batch {
                0
            } else {
                (n - log_batch - 1) / 6
            };
            &&& log_batch <= n
            &&& out.round_commitments@.len() == commits
            &&& out.epoch_multi_proofs@.len() == commits
            &&& forall|i: int|
                0 <= i < out.queries@.len() ==> {
                    &&& (#[trigger] out.queries@[i]).epoch_leaves@.len() == commits
                    &&& out.queries@[i].initial_leaf@.len() == pow2(log_batch)
                }
            &&& ch.len() == n
            &&& forall|i: int|
                0 <= i < n ==> #[trigger] ch[i] == drawn::<Ch>(
                    s,
                    before_challenge(out, log_batch, i as nat),
                )
            &&& log_inv_rate == 1 ==> out.queries@.len() == 243
            &&& log_inv_rate == 2 ==> out.queries@.len() == 148
            &&& forall|i: int|
                0 <= i < out.queries@.len() ==> (#[trigger] out.queries@[i]).position as int
                    == drawn::<Ch>(s, all + draws(i as nat)).lo as int % positions
            &&& v.state == played::<Ch>(s, all + draws(out.queries@.len()))
        }),
{
    let n = out.round_messages@.len();
    let c = code_of(n as int, log_inv_rate as int, log_batch as int);
    assert(c.rounds() == n);
    let s1 = Ch::after_label(s, basefold_label());
    let p = replayed::<Ch>(s1, out, c, target, n);
    let label = seq![Step::Label("flock-basefold-v0"@)];
    lemma_label_played::<Ch>(s);
    lemma_replayed_script::<Ch>(s1, out, c, target, n);
    lemma_played_concat::<Ch>(s, label, rounds_script(out, log_batch, n));
    let all = basefold_script(out, log_batch);
    assert(played::<Ch>(s, all) == p.state);
    assert forall|i: int| 0 <= i < n implies #[trigger] p.challenges[i] == drawn::<Ch>(
        s,
        before_challenge(out, log_batch, i as nat),
    ) by {
        lemma_played_concat::<Ch>(
            s,
            label,
            rounds_script(out, log_batch, i as nat).push(
                Step::Element(out.round_messages@[i].u_0),
            ).push(Step::Element(out.round_messages@[i].u_2)),
        );
    }
    let nq = out.queries@.len();
    let at = query_positions::<Ch>(p.state, c.k_code(), nq);
    assert forall|i: int| 0 <= i < nq implies {
        &&& (#[trigger] out.queries@[i]).epoch_leaves@.len() == commit_count(c)
        &&& out.queries@[i].initial_leaf@.len() == pow2(log_batch)
    } by {
        lemma_no_query_error(ntt, out, c, p.challenges, at, 0, i);
    }
    lemma_played_concat::<Ch>(s, all, draws(nq));
    lemma_draws::<Ch>(p.state, nq);
    let positions = query_positions::<Ch>(p.state, c.k_code(), nq);
    let domain = pow2(c.k_code()) as int;
    lemma_pow2_pos(c.k_code());
    assert forall|i: int| 0 <= i < nq implies (#[trigger] out.queries@[i]).position as int
        == drawn::<Ch>(s, all + draws(i as nat)).lo as int % domain by {
        lemma_no_query_error(ntt, out, c, p.challenges, positions, 0, i);
        lemma_played_concat::<Ch>(s, all, draws(i as nat));
        lemma_draws::<Ch>(p.state, i as nat);
        let lo = Ch::challenge(state_after_samples::<Ch>(p.state, i as nat)).lo as int;
        vstd::arithmetic::div_mod::lemma_mod_bound(lo, domain);
        assert(positions[i] == query_position::<Ch>(p.state, c.k_code(), i as nat) as usize);
    }
}

/// No query is passed over.
proof fn lemma_no_query_error(
    ntt: &AdditiveNttF128,
    out: BaseFoldProof,
    c: Code,
    ch: Seq<F128>,
    positions: Seq<usize>,
    from: nat,
    i: int,
)
    requires
        queries_error(ntt, out, c, ch, positions, from) is None,
        from <= i < out.queries@.len(),
    ensures
        query_error(ntt, out.queries@[i], out.final_codeword@, c, ch, i, positions[i]) is None,
        out.queries@[i].position == positions[i],
    decreases i - from,
{
    if from < i {
        lemma_no_query_error(ntt, out, c, ch, positions, from + 1, i);
    }
}

/// The prover opens the same positions: query `i` of an honest run opens the position that
/// the low word of the `i`-th challenge behind its messages and roots gives, modulo the
/// number of positions, and the run ends behind all those challenges.
pub proof fn lemma_prover_positions<Ch: Challenger>(
    s: Ch::State,
    end: Ch::State,
    out: BaseFoldProof,
    ntt: &AdditiveNttF128,
    cw: Seq<F128>,
    tree: Seq<Hash32>,
    c: Code,
    a: Seq<F128>,
    b: Seq<F128>,
    prime: Option<(F128, F128)>,
    n_queries: nat,
)
    requires
        honest_run::<Ch>(s, end, out, ntt, cw, tree, c, a, b, prime, n_queries),
        a.len() == pow2(c.rounds()),
        b.len() == a.len(),
        prime is Some ==> prime->Some_0 == low_message(a, b),
        pow2(c.k_code()) <= usize::MAX,
    ensures
        ({
            let all = basefold_script(out, c.log_batch);
            &&& out.queries@.len() == n_queries
            &&& forall|i: int|
                0 <= i < n_queries ==> (#[trigger] out.queries@[i]).position as int == drawn::<Ch>(
                    s,
                    all + draws(i as nat),
                ).lo as int % pow2(c.k_code()) as int
            &&& end == played::<Ch>(s, all + draws(n_queries))
        }),
{
    let s1 = Ch::after_label(s, basefold_label());
    let n = c.rounds();
    lemma_replay::<Ch>(s, end, out, ntt, cw, tree, c, a, b, prime, n_queries, n);
    lemma_replayed_script::<Ch>(s1, out, c, dot(a, b), n);
    lemma_label_played::<Ch>(s);
    lemma_played_concat::<Ch>(
        s,
        seq![Step::Label("flock-basefold-v0"@)],
        rounds_script(out, c.log_batch, n),
    );
    let all = basefold_script(out, c.log_batch);
    let state = fold_rounds::<Ch>(s1, ntt, cw, c, a, b, prime, n).state;
    assert(played::<Ch>(s, all) == state);
    lemma_played_concat::<Ch>(s, all, draws(n_queries));
    lemma_draws::<Ch>(state, n_queries);
    let domain = pow2(c.k_code()) as int;
    lemma_pow2_pos(c.k_code());
    let positions = query_positions::<Ch>(state, c.k_code(), n_queries);
    assert forall|i: int| 0 <= i < n_queries implies (#[trigger] out.queries@[i]).position as int
        == drawn::<Ch>(s, all + draws(i as nat)).lo as int % domain by {
        lemma_played_concat::<Ch>(s, all, draws(i as nat));
        lemma_draws::<Ch>(state, i as nat);
        let lo = Ch::challenge(state_after_samples::<Ch>(state, i as nat)).lo as int;
        vstd::arithmetic::div_mod::lemma_mod_bound(lo, domain);
        assert(out.queries@[i].position == positions[i]);
    }
}

// ---------------------------------------------------------------------------
// The opened values
// ---------------------------------------------------------------------------

proof fn lemma_no_epoch_error(
    ntt: &AdditiveNttF128,
    q: QueryOpening,
    c: Code,
    ch: Seq<F128>,
    qi: int,
    from: nat,
    e: nat,
)
    requires
        epochs_error(ntt, q, c, ch, qi, from) is None,
        from <= e < c.epochs(),
    ensures
        query_leaf(q, e).len() == pow2(c.arity(e)),
        query_leaf(q, e)[crate::pcs::basefold::check::leaf_offset(c, e, q.position as int)]
            == crate::pcs::basefold::check::expected_value(ntt, q, c, ch, e),
    decreases e - from,
{
    if from < e {
        lemma_no_epoch_error(ntt, q, c, ch, qi, from + 1, e);
    }
}

/// The leaf number `e` that a query opens: that of the row-batched codeword first.
pub open spec fn opened_leaf(q: QueryOpening, e: nat) -> Seq<F128> {
    if e == 0 {
        q.post_row_batch_leaf@
    } else {
        q.epoch_leaves@[e - 1]@
    }
}

/// The value at `r` of the quadratic of a round: `u_0` at zero, values at zero and one that
/// add up to the claim, and the leading coefficient `u_2`.
pub open spec fn quadratic_value(claim: F128, u_0: F128, u_2: F128, r: F128) -> F128 {
    (F128::one() + r) * u_0 + r * (claim + u_0) + (r * r + r) * u_2
}

/// What the first `t` messages make of the target at the challenges.
pub open spec fn claim_after(out: BaseFoldProof, ch: Seq<F128>, target: F128, t: nat) -> F128
    decreases t,
{
    if t == 0 {
        target
    } else {
        quadratic_value(
            claim_after(out, ch, target, (t - 1) as nat),
            out.round_messages@[t - 1].u_0,
            out.round_messages@[t - 1].u_2,
            ch[t - 1],
        )
    }
}

/// A round takes the value of its quadratic at the challenge.
pub proof fn lemma_round_takes_quadratic_value(claim: F128, u_0: F128, u_2: F128, r: F128)
    ensures
        low_target(claim, u_0, u_2, r) == quadratic_value(claim, u_0, u_2, r),
{
    let one = F128::one();
    lemma_mul_distributes(u_0, one, r);
    lemma_mul_units(u_0);
    lemma_mul_distributes(r, claim, u_0);
    lemma_mul_distributes(r, claim, u_2);
    lemma_mul_distributes(u_2, r * r, r);
    let (x, y, p, q) = (r * u_0, r * claim, r * u_2, r * r * u_2);
    // u_0 + x + (y + x) + (q + p) and u_0 + (y + p) + q
    lemma_add_rules(y, x, x, x);
    lemma_add_rules(x, y, y, y);
    lemma_add_rules(u_0, x, y + x, x);
    lemma_add_rules(x, x + y, x, x);
    lemma_add_rules(q, p, p, p);
    lemma_add_rules(u_0, y, q + p, p);
    lemma_add_rules(u_0, y + p, q, q);
    lemma_add_rules(y, p, q, q);
    assert(x + (y + x) == y);
    assert((u_0 + x) + (y + x) == u_0 + y);
    assert((u_0 + y) + (p + q) == u_0 + (y + (p + q)));
    assert(y + (p + q) == (y + p) + q);
}

proof fn lemma_claim_after<Ch: Challenger>(
    s: Ch::State,
    out: BaseFoldProof,
    c: Code,
    target: F128,
    ch: Seq<F128>,
    t: nat,
)
    requires
        t <= out.round_messages@.len(),
        c.rounds() == out.round_messages@.len(),
        forall|i: nat| #![trigger ch[i as int]]
            i < t ==> ch[i as int] == replayed::<Ch>(
                s,
                out,
                c,
                target,
                (i + 1) as nat,
            ).challenges[i as int],
    ensures
        replayed::<Ch>(s, out, c, target, t).target == claim_after(out, ch, target, t),
    decreases t,
{
    if t > 0 {
        let m = (t - 1) as nat;
        lemma_claim_after::<Ch>(s, out, c, target, ch, m);
        lemma_replayed_script::<Ch>(s, out, c, target, m);
        assert(ch[m as int] == replayed::<Ch>(s, out, c, target, t).challenges[m as int]);
        let p = replayed::<Ch>(s, out, c, target, m);
        let msg = out.round_messages@[t - 1];
        lemma_round_takes_quadratic_value(p.target, msg.u_0, msg.u_2, ch[t - 1]);
    }
}

/// The opened values of an accepted proof hang together: the lanes of the initial leaf, as a
/// table, have at the first challenges the value that the next leaf, or the final codeword,
/// holds at the position; each leaf of an epoch folds to the value that the next one
/// holds; the last one folds to the final codeword, all of whose entries are `final_a`;
/// and `final_a · final_b` is what the rounds make of the target.
pub proof fn lemma_accepted_values_fold<Ch: Challenger>(
    s: Ch::State,
    target: F128,
    out: BaseFoldProof,
    root: Seq<u8>,
    ntt: &AdditiveNttF128,
    log_inv_rate: nat,
    log_batch: nat,
    i: int,
)
    requires
        proof_verdict::<Ch>(s, target, out, root, ntt, log_inv_rate, log_batch).result is Ok,
        0 <= i < out.queries@.len(),
    ensures
        ({
            let ch = proof_verdict::<Ch>(
                s,
                target,
                out,
                root,
                ntt,
                log_inv_rate,
                log_batch,
            ).result->Ok_0;
            let n = out.round_messages@.len();
            let c = code_of(n as int, log_inv_rate as int, log_batch as int);
            let q = out.queries@[i];
            let at = q.position as int;
            let row = mle(q.initial_leaf@, ch.take(log_batch as int));
            let last = out.final_codeword@[at / (pow2(c.log_dim) as int)];
            let folded = |e: nat|
                coset_fold_all(
                    ntt,
                    opened_leaf(q, e),
                    (c.k_code() - 6 * e) as nat,
                    at / (pow2(6 * e + c.arity(e)) as int),
                    ch.subrange(
                        (log_batch + 6 * e) as int,
                        (log_batch + 6 * e + c.arity(e)) as int,
                    ),
                )[0];
            let held = |e: nat|
                opened_leaf(q, e)[at / (pow2(6 * e) as int) % (pow2(c.arity(e)) as int)];
            &&& q.initial_leaf@.len() == pow2(log_batch)
            &&& c.epochs() == 0 ==> last == row
            &&& c.epochs() > 0 ==> held(0) == row && last == folded((c.epochs() - 1) as nat)
            &&& forall|e: nat|
                e + 1 < c.epochs() ==> #[trigger] held((e + 1) as nat) == folded(e)
            &&& forall|e: nat|
                e < c.epochs() ==> (#[trigger] opened_leaf(q, e)).len() == pow2(c.arity(e))
            &&& out.final_codeword@.len() == pow2(log_inv_rate)
            &&& forall|k: int|
                0 <= k < out.final_codeword@.len() ==> #[trigger] out.final_codeword@[k]
                    == out.final_a
            &&& out.final_a * out.final_b == claim_after(out, ch, target, n)
        }),
{
    let n = out.round_messages@.len();
    let c = code_of(n as int, log_inv_rate as int, log_batch as int);
    assert(c.rounds() == n);
    let s1 = Ch::after_label(s, basefold_label());
    let p = replayed::<Ch>(s1, out, c, target, n);
    lemma_replayed_script::<Ch>(s1, out, c, target, n);
    let ch = p.challenges;
    assert forall|j: nat| #![trigger ch[j as int]] j < n implies ch[j as int] == replayed::<Ch>(
        s1,
        out,
        c,
        target,
        (j + 1) as nat,
    ).challenges[j as int] by {
        lemma_replayed_script::<Ch>(s1, out, c, target, j + 1);
    }
    lemma_claim_after::<Ch>(s1, out, c, target, ch, n);
    let positions = query_positions::<Ch>(p.state, c.k_code(), out.queries@.len());
    assert(final_error(out, c, p.target) is None);
    lemma_no_query_error(ntt, out, c, ch, positions, 0, i);
    let q = out.queries@[i];
    let at = q.position as int;
    let low = ch.take(log_batch as int);
    lemma_fold_low_to_value(q.initial_leaf@, low);
    if c.epochs() > 0 {
        lemma_no_epoch_error(ntt, q, c, ch, i, 0, 0);
        vstd::arithmetic::power2::lemma2_to64();
        assert(6 * 0nat == 0);
        assert(at / 1 == at);
    }
    assert forall|e: nat| e < c.epochs() implies (#[trigger] opened_leaf(q, e)).len() == pow2(
        c.arity(e),
    ) by {
        lemma_no_epoch_error(ntt, q, c, ch, i, 0, e);
    }
    let held = |e: nat|
        opened_leaf(q, e)[at / (pow2(6 * e) as int) % (pow2(c.arity(e)) as int)];
    let folded = |e: nat|
        coset_fold_all(
            ntt,
            opened_leaf(q, e),
            (c.k_code() - 6 * e) as nat,
            at / (pow2(6 * e + c.arity(e)) as int),
            ch.subrange(
                (log_batch + 6 * e) as int,
                (log_batch + 6 * e + c.arity(e)) as int,
            ),
        )[0];
    assert forall|e: nat| e + 1 < c.epochs() implies #[trigger] held((e + 1) as nat) == folded(
        e,
    ) by {
        lemma_no_epoch_error(ntt, q, c, ch, i, 0, e + 1);
    }
}

/// What is reported of a proof whose ends do not meet: the shape first, then the claim that the
/// messages make of the target, then the final codeword.
pub proof fn lemma_loose_ends_are_reported<Ch: Challenger>(
    s: Ch::State,
    target: F128,
    out: BaseFoldProof,
    root: Seq<u8>,
    ntt: &AdditiveNttF128,
    log_inv_rate: nat,
    log_batch: nat,
)
    ensures
        ({
            let r = proof_verdict::<Ch>(
                s,
                target,
                out,
                root,
                ntt,
                log_inv_rate,
                log_batch,
            ).result;
            let n = out.round_messages@.len();
            let ch = Seq::new(
                n,
                |i: int| drawn::<Ch>(s, before_challenge(out, log_batch, i as nat)),
            );
            let commits = if n <= log_batch {
                0
            } else {
                (n - log_batch - 1) / 6
            };
            let queries = if log_inv_rate == 1 {
                243nat
            } else {
                148
            };
            let shape = log_batch <= n && out.round_commitments@.len() == commits
                && out.queries@.len() == queries;
            let meets = out.final_a * out.final_b == claim_after(out, ch, target, n);
            let flat = out.final_codeword@.len() == pow2(log_inv_rate) && forall|i: int, j: int|
                0 <= i < out.final_codeword@.len() && 0 <= j < out.final_codeword@.len()
                    ==> #[trigger] out.final_codeword@[i] == #[trigger] out.final_codeword@[j];
            &&& !shape ==> r == Err::<Seq<F128>, VerifyError>(VerifyError::InvalidProofShape)
            &&& shape && !meets ==> r == Err::<Seq<F128>, VerifyError>(
                VerifyError::SumcheckFinalMismatch,
            )
            &&& shape && meets && !flat ==> r == Err::<Seq<F128>, VerifyError>(
                VerifyError::FinalCodewordNotConstant,
            )
            &&& shape && meets && flat && out.final_codeword@[0] != out.final_a ==> r == Err::<
                Seq<F128>,
                VerifyError,
            >(VerifyError::SumcheckFriMismatch)
        }),
{
    let n = out.round_messages@.len();
    if log_batch <= n {
        let c = code_of(n as int, log_inv_rate as int, log_batch as int);
        assert(c.rounds() == n);
        let s1 = Ch::after_label(s, basefold_label());
        let label = seq![Step::Label("flock-basefold-v0"@)];
        lemma_label_played::<Ch>(s);
        let ch = Seq::new(
            n,
            |i: int| drawn::<Ch>(s, before_challenge(out, log_batch, i as nat)),
        );
        assert forall|i: nat| #![trigger ch[i as int]] i < n implies ch[i as int] == replayed::<
            Ch,
        >(s1, out, c, target, (i + 1) as nat).challenges[i as int] by {
            lemma_replayed_script::<Ch>(s1, out, c, target, i + 1);
            lemma_played_concat::<Ch>(
                s,
                label,
                rounds_script(out, log_batch, i).push(
                    Step::Element(out.round_messages@[i as int].u_0),
                ).push(Step::Element(out.round_messages@[i as int].u_2)),
            );
        }
        lemma_claim_after::<Ch>(s1, out, c, target, ch, n);
        lemma_pow2_pos(log_inv_rate);
        let w = out.final_codeword@;
        assert(constant(w) == (forall|i: int, j: int|
            0 <= i < w.len() && 0 <= j < w.len() ==> #[trigger] w[i] == #[trigger] w[j])) by {
            if constant(w) {
                assert forall|i: int, j: int| 0 <= i < w.len() && 0 <= j < w.len() implies
                    #[trigger] w[i] == #[trigger] w[j] by {
                    assert(w[i] == w[0] && w[j] == w[0]);
                }
            }
        }
    }
}

proof fn lemma_first_query_error(
    ntt: &AdditiveNttF128,
    out: BaseFoldProof,
    c: Code,
    ch: Seq<F128>,
    positions: Seq<usize>,
    from: nat,
    i: int,
)
    requires
        from <= i < out.queries@.len(),
        forall|q: int|
            from <= q < i ==> query_error(
                ntt,
                #[trigger] out.queries@[q],
                out.final_codeword@,
                c,
                ch,
                q,
                positions[q],
            ) is None,
        query_error(
            ntt,
            out.queries@[i],
            out.final_codeword@,
            c,
            ch,
            i,
            positions[i],
        ) is Some,
    ensures
        queries_error(ntt, out, c, ch, positions, from) == query_error(
            ntt,
            out.queries@[i],
            out.final_codeword@,
            c,
            ch,
            i,
            positions[i],
        ),
    decreases i - from,
{
    if from < i {
        assert(query_error(
            ntt,
            out.queries@[from as int],
            out.final_codeword@,
            c,
            ch,
            from as int,
            positions[from as int],
        ) is None);
        lemma_first_query_error(ntt, out, c, ch, positions, from + 1, i);
    }
}

/// The first query that is wrong is reported by its number: where it opens another position
/// than the one sampled, where its initial leaf does not have the lanes, and where the value
/// of the lanes at the first challenges is not the one that is found at the position.
pub proof fn lemma_first_wrong_query_is_reported(
    ntt: &AdditiveNttF128,
    out: BaseFoldProof,
    c: Code,
    ch: Seq<F128>,
    positions: Seq<usize>,
    i: int,
)
    requires
        0 <= i < out.queries@.len() <= usize::MAX,
        c.log_batch <= ch.len(),
        forall|q: int|
            0 <= q < i ==> query_error(
                ntt,
                #[trigger] out.queries@[q],
                out.final_codeword@,
                c,
                ch,
                q,
                positions[q],
            ) is None,
    ensures
        ({
            let r = queries_error(ntt, out, c, ch, positions, 0);
            let q = out.queries@[i];
            let at = q.position as int;
            let row = mle(q.initial_leaf@, ch.take(c.log_batch as int));
            let commits = if c.log_dim == 0 {
                0
            } else {
                (c.log_dim - 1) / 6
            };
            let first = if c.log_dim < 6 {
                c.log_dim
            } else {
                6
            };
            let mismatch = Some(VerifyError::FoldMismatch { query_index: i as usize, epoch: 0 });
            let opens = q.position == positions[i];
            let lanes = q.initial_leaf@.len() == pow2(c.log_batch);
            &&& !opens ==> r == mismatch
            &&& opens && !lanes ==> r == Some(
                VerifyError::InitialMerkleFailed { query_index: i as usize },
            )
            &&& opens && lanes && q.epoch_leaves@.len() != commits ==> r == Some(
                VerifyError::InvalidProofShape,
            )
            &&& opens && lanes && q.epoch_leaves@.len() == commits && c.log_dim > 0
                && q.post_row_batch_leaf@.len() == pow2(first)
                && q.post_row_batch_leaf@[at % (pow2(first) as int)] != row ==> r == mismatch
            &&& opens && lanes && q.epoch_leaves@.len() == commits && c.log_dim == 0
                && out.final_codeword@[at] != row ==> r == mismatch
        }),
{
    let q = out.queries@[i];
    let low = ch.take(c.log_batch as int);
    vstd::arithmetic::power2::lemma2_to64();
    if q.initial_leaf@.len() == pow2(c.log_batch) {
        lemma_fold_low_to_value(q.initial_leaf@, low);
    }
    let at = q.position as int;
    assert(at / 1 == at);
    assert(6 * 0nat == 0);
    let e = query_error(ntt, q, out.final_codeword@, c, ch, i, positions[i]);
    if e is Some {
        lemma_first_query_error(ntt, out, c, ch, positions, 0, i);
    }
}

// ---------------------------------------------------------------------------
// The commitment
// ---------------------------------------------------------------------------

/// A leaf that a multi-proof shows is committed.
proof fn lemma_shown_leaf_is_committed(
    leaves: Seq<Seq<u8>>,
    k: nat,
    positions: Seq<usize>,
    hashes: Seq<Seq<u8>>,
    sibs: Seq<Seq<u8>>,
    i: int,
)
    requires
        leaves.len() == pow2(k),
        have_32_bytes(leaves),
        have_32_bytes(hashes),
        have_32_bytes(sibs),
        hashes.len() == positions.len(),
        paths_hold(merkle_root(leaves, k), k, positions, hashes, sibs),
        forall|q: int| 0 <= q < positions.len() ==> (#[trigger] positions[q]) < pow2(k),
        0 <= i < positions.len(),
    ensures
        digests_have_32_bytes() ==> hashes[i] == leaves[positions[i] as int]
            || has_second_preimage(leaves, k),
{
    lemma_sorted_positions(positions, pow2(k) as int);
    let sorted = sorted_positions(positions);
    let h = hashes_of(positions, hashes, sorted);
    assert(sorted.contains(positions[i] as int));
    let at = sorted.index_of(positions[i] as int);
    assert(sorted[at] == positions[i]);
    let who = opener(positions, sorted[at]);
    assert(0 <= who < positions.len() && positions[who] == sorted[at]);
    assert(hashes[who] == hashes[i]);
    lemma_sorted_from(positions);
    assert forall|q: int| 0 <= q < h.len() implies (#[trigger] h[q]).len() == 32 by {
        let w = opener(positions, sorted[q]);
        assert(opened_by(positions, sorted[q]));
        assert(0 <= w < positions.len() && positions[w] == sorted[q]);
        assert(h[q] == hashes[w]);
    }
    lemma_multi_proof_binds(leaves, k, sorted, h, sibs, at);
}

/// The initial leaves of an accepted proof are committed: with a root of the given leaf
/// hashes, the hash of each initial leaf is the one of its position, or there are other
/// bytes with the hash of a node of the tree.
pub proof fn lemma_accepted_leaves_are_committed<Ch: Challenger>(
    s: Ch::State,
    target: F128,
    out: BaseFoldProof,
    leaves: Seq<Seq<u8>>,
    ntt: &AdditiveNttF128,
    log_inv_rate: nat,
    log_batch: nat,
    i: int,
)
    requires
        ({
            let k = (out.round_messages@.len() - log_batch + log_inv_rate) as nat;
            &&& leaves.len() == pow2(k)
            &&& have_32_bytes(leaves)
            &&& proof_verdict::<Ch>(
                s,
                target,
                out,
                merkle_root(leaves, k),
                ntt,
                log_inv_rate,
                log_batch,
            ).result is Ok
        }),
        0 <= i < out.queries@.len(),
    ensures
        digests_have_32_bytes() ==> sha256(elements_bytes(out.queries@[i].initial_leaf@))
            == leaves[out.queries@[i].position as int] || has_second_preimage(
            leaves,
            (out.round_messages@.len() - log_batch + log_inv_rate) as nat,
        ),
{
    let n = out.round_messages@.len();
    let c = code_of(n as int, log_inv_rate as int, log_batch as int);
    assert(c.rounds() == n);
    let k = c.k_code();
    let root = merkle_root(leaves, k);
    let s1 = Ch::after_label(s, basefold_label());
    let p = replayed::<Ch>(s1, out, c, target, n);
    let positions = query_positions::<Ch>(p.state, k, out.queries@.len());
    let hashes = initial_hashes(out.queries@);
    let sibs = hash_views(out.initial_multi_proof@);
    assert(paths_error(out, root, c, positions) is None);
    assert(paths_hold(root, k, positions, hashes, sibs));
    lemma_no_query_error(ntt, out, c, p.challenges, positions, 0, i);
    lemma_pow2_pos(k);
    assert forall|q: int| 0 <= q < positions.len() implies 0 <= #[trigger] positions[q] < pow2(
        k,
    ) by {
        let lo = Ch::challenge(state_after_samples::<Ch>(p.state, q as nat)).lo as int;
        vstd::arithmetic::div_mod::lemma_mod_bound(lo, pow2(k) as int);
    }
    if digests_have_32_bytes() {
        lemma_shown_leaf_is_committed(leaves, k, positions, hashes, sibs, i);
    }
}

proof fn lemma_no_epoch_paths_error(
    out: BaseFoldProof,
    c: Code,
    positions: Seq<usize>,
    from: nat,
    e: nat,
)
    requires
        epoch_paths_error(out, c, positions, from) is None,
        from <= e < c.epochs(),
    ensures
        paths_hold(
            proof_root(out, e),
            c.epoch_log(e),
            epoch_indices(c, e, positions),
            opened_hashes(out.queries@, e),
            hash_views(proof_siblings(out, e)),
        ),
    decreases e - from,
{
    if from < e {
        lemma_no_epoch_paths_error(out, c, positions, from + 1, e);
    }
}

/// So are the leaves of the later codewords: where the root that the proof gives for leaf
/// number `e` is that of the given leaf hashes, the hash of what a query opens there is the
/// one of the coset that its position lies in, or there are other bytes with the hash of a
/// node of the tree.
pub proof fn lemma_accepted_epoch_leaves_are_committed<Ch: Challenger>(
    s: Ch::State,
    target: F128,
    out: BaseFoldProof,
    root: Seq<u8>,
    ntt: &AdditiveNttF128,
    log_inv_rate: nat,
    log_batch: nat,
    e: nat,
    leaves: Seq<Seq<u8>>,
    i: int,
)
    requires
        proof_verdict::<Ch>(s, target, out, root, ntt, log_inv_rate, log_batch).result is Ok,
        0 <= i < out.queries@.len(),
        ({
            let dim = out.round_messages@.len() - log_batch;
            let rounds = if dim - 6 * e < 6 {
                dim - 6 * e
            } else {
                6
            };
            let k = (dim + log_inv_rate - 6 * e - rounds) as nat;
            &&& rounds > 0
            &&& leaves.len() == pow2(k)
            &&& have_32_bytes(leaves)
            &&& merkle_root(leaves, k) == (if e == 0 {
                out.post_row_batch_commit.root@
            } else {
                out.round_commitments@[e - 1].root@
            })
        }),
    ensures
        ({
            let dim = out.round_messages@.len() - log_batch;
            let rounds = if dim - 6 * e < 6 {
                dim - 6 * e
            } else {
                6
            };
            let k = (dim + log_inv_rate - 6 * e - rounds) as nat;
            let at = out.queries@[i].position as int / (pow2((6 * e + rounds) as nat) as int);
            digests_have_32_bytes() ==> sha256(elements_bytes(opened_leaf(out.queries@[i], e)))
                == leaves[at] || has_second_preimage(leaves, k)
        }),
{
    let n = out.round_messages@.len();
    let c = code_of(n as int, log_inv_rate as int, log_batch as int);
    assert(c.rounds() == n);
    let s1 = Ch::after_label(s, basefold_label());
    let p = replayed::<Ch>(s1, out, c, target, n);
    let positions = query_positions::<Ch>(p.state, c.k_code(), out.queries@.len());
    lemma_no_query_error(ntt, out, c, p.challenges, positions, 0, i);
    assert(e < c.epochs());
    assert(paths_error(out, root, c, positions) is None);
    lemma_no_epoch_paths_error(out, c, positions, 0, e);
    let k = c.epoch_log(e);
    let low = 6 * e + c.arity(e);
    let at = epoch_indices(c, e, positions);
    lemma_pow2_pos(c.k_code());
    lemma_pow2_pos(low);
    lemma_pow2_adds(low, k);
    assert(c.k_code() == low + k);
    assert forall|q: int| 0 <= q < at.len() implies (#[trigger] at[q]) < pow2(k) && at[q]
        == positions[q] as int / (pow2(low) as int) by {
        let lo = Ch::challenge(state_after_samples::<Ch>(p.state, q as nat)).lo as int;
        vstd::arithmetic::div_mod::lemma_mod_bound(lo, pow2(c.k_code()) as int);
        let x = positions[q] as int;
        vstd::arithmetic::div_mod::lemma_div_pos_is_pos(x, pow2(low) as int);
        vstd::arithmetic::div_mod::lemma_div_is_ordered_by_denominator(x, 1, pow2(low) as int);
        vstd::arithmetic::div_mod::lemma_multiply_divide_lt(x, pow2(low) as int, pow2(k) as int);
    }
    if digests_have_32_bytes() {
        lemma_shown_leaf_is_committed(
            leaves,
            k,
            at,
            opened_hashes(out.queries@, e),
            hash_views(proof_siblings(out, e)),
            i,
        );
    }
}

} // verus!
