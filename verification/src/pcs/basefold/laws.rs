//! What the BaseFold prover and verifier promise together.
use vstd::arithmetic::power2::{lemma2_to64, lemma_pow2_adds, lemma_pow2_pos, lemma_pow2_unfold, pow2};
use vstd::prelude::*;
use crate::challenger::Challenger;
use crate::field::gf2_128::{lemma_add_rules, lemma_mul_distributes, lemma_no_zero_divisors};
use crate::field::F128;
use crate::hash::Hash32;
use crate::merkle::{
    hash_views, hashes_at, is_tree, leaf_hashes, leaf_values, lemma_leaves_verify,
    lemma_multi_proof_of_tree, merkle_root, multi_proof_of, sorted_positions,
};
use crate::ntt::AdditiveNttF128;
use crate::pcs::basefold::check::{
    epoch_challenges, epoch_paths_error, epochs_error, expected_value, final_error, hashes_of,
    initial_hashes, lemma_position_parts, lemma_sorted_from, opened_by, opened_hashes, opener,
    paths_hold, proof_root, proof_siblings, proof_verdict, queries_error, query_error, query_leaf,
    replayed,
};
use crate::pcs::basefold::prover::{
    code_of, lemma_epoch, lemma_epoch_index, lemma_folded_len, lemma_folded_prefix,
    lemma_rounds_shape, prover_inputs_fit,
};
use crate::pcs::basefold::{
    basefold_label, epoch_index, epoch_indices, epoch_leaf, epoch_leaf_hashes, epoch_root,
    fold_rounds, folded_codeword, honest_run, opens, query_count, query_positions,
    state_after_samples, BaseFoldProof, Code, QueryOpening, VerifyError,
};
use crate::pcs::fold::{
    coset_fold_all, encoded, fold_low_all, fri_fold_all, fri_fold_at, lemma_constant_codeword,
    lemma_fold_low_len, lemma_fold_low_local, lemma_fold_low_to_value, lemma_fri_fold_local,
    lemma_fri_fold_of_codeword, lemma_low_round, lemma_row_fold_of_codeword, low_message,
    low_target,
};
use crate::zerocheck::multilinear::{dot, mle};

verus! {

// ---------------------------------------------------------------------------
// Folds of codewords
// ---------------------------------------------------------------------------

/// The row-batch folds of a message's codeword give the codeword of the
/// folded message.
pub proof fn lemma_row_folds(
    ntt: &AdditiveNttF128,
    msg: Seq<F128>,
    log_d: nat,
    rs: Seq<F128>,
    lanes: nat,
    n: nat,
)
    requires
        lanes > 0,
        msg.len() == n * pow2(rs.len()),
        msg.len() <= pow2(log_d) * (lanes * pow2(rs.len())),
    ensures
        fold_low_all(encoded(ntt, msg, log_d, lanes * pow2(rs.len())), rs) == encoded(
            ntt,
            fold_low_all(msg, rs),
            log_d,
            lanes,
        ),
    decreases rs.len(),
{
    lemma2_to64();
    if rs.len() == 0 {
        assert(lanes * 1 == lanes) by (nonlinear_arith);
    } else {
        let prev = rs.drop_last();
        let e = pow2(prev.len());
        lemma_pow2_unfold(rs.len());
        lemma_pow2_pos(prev.len());
        assert(lanes * (2 * e) == (2 * lanes) * e) by (nonlinear_arith);
        assert(n * (2 * e) == (2 * n) * e) by (nonlinear_arith);
        lemma_row_folds(ntt, msg, log_d, prev, 2 * lanes, 2 * n);
        let m = fold_low_all(msg, prev);
        lemma_fold_low_len(msg, prev, 2 * n);
        let p = pow2(log_d);
        assert(2 * n <= p * (2 * lanes)) by (nonlinear_arith)
            requires
                (2 * n) * e <= p * ((2 * lanes) * e),
                e >= 1,
        ;
        lemma_row_fold_of_codeword(ntt, m, log_d, lanes, rs.last());
    }
}

/// The FRI folds of a message's codeword give the codeword of the folded
/// message.
pub proof fn lemma_fri_folds(
    ntt: &AdditiveNttF128,
    msg: Seq<F128>,
    log_d: nat,
    rs: Seq<F128>,
    n: nat,
)
    requires
        rs.len() <= log_d,
        msg.len() == n * pow2(rs.len()),
        msg.len() <= pow2(log_d),
    ensures
        fri_fold_all(ntt, encoded(ntt, msg, log_d, 1), log_d, rs) == encoded(
            ntt,
            fold_low_all(msg, rs),
            (log_d - rs.len()) as nat,
            1,
        ),
    decreases rs.len(),
{
    lemma2_to64();
    if rs.len() > 0 {
        let prev = rs.drop_last();
        let e = pow2(prev.len());
        lemma_pow2_unfold(rs.len());
        lemma_pow2_pos(prev.len());
        assert(n * (2 * e) == (2 * n) * e) by (nonlinear_arith);
        lemma_fri_folds(ntt, msg, log_d, prev, 2 * n);
        lemma_fold_low_len(msg, prev, 2 * n);
        let left = (log_d - rs.len()) as nat;
        lemma_pow2_adds(left + 1, prev.len());
        let p = pow2(left + 1);
        assert(2 * n <= p) by (nonlinear_arith)
            requires
                (2 * n) * e <= p * e,
                e >= 1,
        ;
        lemma_fri_fold_of_codeword(ntt, fold_low_all(msg, prev), left, rs.last());
    }
}

/// Folding in two steps.
pub proof fn lemma_fri_fold_split(
    ntt: &AdditiveNttF128,
    cw: Seq<F128>,
    log_d: nat,
    first: Seq<F128>,
    second: Seq<F128>,
)
    requires
        first.len() + second.len() <= log_d,
    ensures
        fri_fold_all(
            ntt,
            fri_fold_all(ntt, cw, log_d, first),
            (log_d - first.len()) as nat,
            second,
        ) == fri_fold_all(ntt, cw, log_d, first + second),
    decreases second.len(),
{
    if second.len() == 0 {
        assert(first + second =~= first);
    } else {
        lemma_fri_fold_split(ntt, cw, log_d, first, second.drop_last());
        assert((first + second).drop_last() =~= first + second.drop_last());
        assert((first + second).last() == second.last());
    }
}

/// Folding a table in two steps.
pub proof fn lemma_fold_low_split(v: Seq<F128>, first: Seq<F128>, second: Seq<F128>)
    ensures
        fold_low_all(fold_low_all(v, first), second) == fold_low_all(v, first + second),
    decreases second.len(),
{
    if second.len() == 0 {
        assert(first + second =~= first);
    } else {
        lemma_fold_low_split(v, first, second.drop_last());
        assert((first + second).drop_last() =~= first + second.drop_last());
        assert((first + second).last() == second.last());
    }
}

/// The codeword that is left after all rounds repeats the value of the message
/// at the challenges.
pub proof fn lemma_final_codeword(ntt: &AdditiveNttF128, c: Code, a: Seq<F128>, ch: Seq<F128>, i: int)
    requires
        a.len() == pow2(c.rounds()),
        ch.len() == c.rounds(),
        0 <= i < pow2(c.log_inv_rate),
    ensures
        ({
            let w = folded_codeword(
                ntt,
                encoded(ntt, a, c.k_code(), c.lanes()),
                c,
                ch,
                c.log_dim,
            );
            w.len() == pow2(c.log_inv_rate) && w[i] == mle(a, ch)
        }),
{
    let b = c.log_batch as int;
    let cw = encoded(ntt, a, c.k_code(), c.lanes());
    let (first, second) = (ch.take(b), ch.subrange(b, b + c.log_dim));
    assert(first + second =~= ch);
    lemma_pow2_adds(c.log_dim, c.log_batch);
    lemma_pow2_adds(c.log_dim, c.log_inv_rate);
    lemma_pow2_pos(c.log_inv_rate);
    lemma_pow2_pos(c.log_batch);
    let (x, y, z) = (pow2(c.log_dim), c.lanes(), pow2(c.log_inv_rate));
    assert(1 * y == y);
    assert(x * y <= (x * z) * (1 * y)) by (nonlinear_arith)
        requires
            z >= 1,
    ;
    lemma_row_folds(ntt, a, c.k_code(), first, 1, x);
    lemma_fold_low_len(a, first, x);
    let m = fold_low_all(a, first);
    assert(x <= x * z) by (nonlinear_arith)
        requires
            z >= 1,
    ;
    assert(1 * x == x);
    lemma_fri_folds(ntt, m, c.k_code(), second, 1);
    lemma_fold_low_split(a, first, second);
    lemma_fold_low_to_value(a, ch);
    let v = mle(a, ch);
    assert(fold_low_all(m, second) =~= seq![v]);
    lemma_constant_codeword(ntt, v, c.log_inv_rate, i);
}

// ---------------------------------------------------------------------------
// The rounds
// ---------------------------------------------------------------------------

/// Earlier rounds are a part of later ones.
pub proof fn lemma_rounds_prefix<Ch: Challenger>(
    s: Ch::State,
    ntt: &AdditiveNttF128,
    cw: Seq<F128>,
    c: Code,
    a: Seq<F128>,
    b: Seq<F128>,
    prime: Option<(F128, F128)>,
    t: nat,
    n: nat,
)
    requires
        t <= n,
    ensures
        ({
            let p = fold_rounds::<Ch>(s, ntt, cw, c, a, b, prime, t);
            let q = fold_rounds::<Ch>(s, ntt, cw, c, a, b, prime, n);
            &&& p.messages.len() == t
            &&& p.challenges.len() == t
            &&& q.messages.len() == n
            &&& q.challenges.len() == n
            &&& p.messages == q.messages.take(t as int)
            &&& p.challenges == q.challenges.take(t as int)
        }),
    decreases n,
{
    let p = fold_rounds::<Ch>(s, ntt, cw, c, a, b, prime, t);
    let q = fold_rounds::<Ch>(s, ntt, cw, c, a, b, prime, n);
    if t < n {
        lemma_rounds_prefix::<Ch>(s, ntt, cw, c, a, b, prime, t, (n - 1) as nat);
        assert(p.messages =~= q.messages.take(t as int));
        assert(p.challenges =~= q.challenges.take(t as int));
    } else if n > 0 {
        lemma_rounds_prefix::<Ch>(s, ntt, cw, c, a, b, prime, (n - 1) as nat, (n - 1) as nat);
        assert(p.messages =~= q.messages.take(t as int));
        assert(p.challenges =~= q.challenges.take(t as int));
    } else {
        assert(p.messages =~= q.messages.take(0));
        assert(p.challenges =~= q.challenges.take(0));
    }
}

/// The verifier replays the rounds of an honest run, and its running target
/// is the inner product of the folded tables.
pub proof fn lemma_replay<Ch: Challenger>(
    s: Ch::State,
    end: Ch::State,
    out: BaseFoldProof,
    ntt: &AdditiveNttF128,
    cw: Seq<F128>,
    tree: Seq<Hash32>,
    c: Code,
    a: Seq<F128>,
    b: Seq<F128>,
    prime: Option<(F128, F128)>,
    n_queries: nat,
    t: nat,
)
    requires
        honest_run::<Ch>(s, end, out, ntt, cw, tree, c, a, b, prime, n_queries),
        a.len() == pow2(c.rounds()),
        b.len() == a.len(),
        prime is Some ==> prime->Some_0 == low_message(a, b),
        t <= c.rounds(),
    ensures
        ({
            let s1 = Ch::after_label(s, basefold_label());
            let p = fold_rounds::<Ch>(s1, ntt, cw, c, a, b, prime, t);
            let v = replayed::<Ch>(s1, out, c, dot(a, b), t);
            &&& v.challenges == p.challenges
            &&& v.state == p.state
            &&& v.target == dot(p.a, p.b)
        }),
    decreases t,
{
    let s1 = Ch::after_label(s, basefold_label());
    if t > 0 {
        let k = (t - 1) as nat;
        lemma_replay::<Ch>(s, end, out, ntt, cw, tree, c, a, b, prime, n_queries, k);
        let prev = fold_rounds::<Ch>(s1, ntt, cw, c, a, b, prime, k);
        let p = fold_rounds::<Ch>(s1, ntt, cw, c, a, b, prime, t);
        let all = fold_rounds::<Ch>(s1, ntt, cw, c, a, b, prime, c.rounds());
        lemma_rounds_shape::<Ch>(s1, ntt, cw, c, a, b, prime, k);
        lemma_rounds_prefix::<Ch>(s1, ntt, cw, c, a, b, prime, t, c.rounds());
        lemma_pow2_unfold((c.rounds() - k) as nat);
        let m = out.round_messages@[t - 1];
        assert(all.messages[t - 1] == p.messages[t - 1]);
        assert((m.u_0, m.u_2) == low_message(prev.a, prev.b));
        lemma_low_round(prev.a, prev.b, p.challenges[t - 1]);
        if c.commits_at(t) {
            let e = ((t - c.log_batch) / 6) as nat;
            assert(t == c.log_batch + 6 * e);
            lemma_folded_prefix(ntt, cw, c, p.challenges, all.challenges, 6 * e);
            assert(e < c.epochs());
            if e > 0 {
                assert(out.round_commitments@[e - 1].root@ == epoch_root(
                    ntt,
                    cw,
                    c,
                    all.challenges,
                    (e - 1 + 1) as nat,
                ));
            }
        }
    }
}

// ---------------------------------------------------------------------------
// The queries
// ---------------------------------------------------------------------------

/// One epoch's folds.
proof fn lemma_epoch_folds(
    ntt: &AdditiveNttF128,
    cw: Seq<F128>,
    c: Code,
    ch: Seq<F128>,
    e: nat,
)
    requires
        e < c.epochs(),
        ch.len() == c.rounds(),
    ensures
        fri_fold_all(
            ntt,
            folded_codeword(ntt, cw, c, ch, 6 * e),
            (c.k_code() - 6 * e) as nat,
            epoch_challenges(c, ch, e),
        ) == folded_codeword(ntt, cw, c, ch, 6 * e + c.arity(e)),
{
    lemma_epoch(c, e);
    let b = c.log_batch as int;
    let first = ch.subrange(b, b + 6 * e);
    let second = epoch_challenges(c, ch, e);
    lemma_fri_fold_split(
        ntt,
        fold_low_all(cw, ch.take(b)),
        c.k_code(),
        first,
        second,
    );
    assert(first + second =~= ch.subrange(b, b + 6 * e + c.arity(e)));
}

/// After the folds of the epochs before `e`.
spec fn folds_before(c: Code, e: nat) -> nat {
    if e >= c.epochs() {
        c.log_dim
    } else {
        6 * e
    }
}

/// An honest query finds the value that it expects.
proof fn lemma_expected(
    ntt: &AdditiveNttF128,
    q: QueryOpening,
    cw: Seq<F128>,
    c: Code,
    ch: Seq<F128>,
    position: usize,
    e: nat,
)
    requires
        opens(q, ntt, cw, c, ch, position),
        cw.len() == pow2(c.k_code()) * c.lanes(),
        ch.len() == c.rounds(),
        position < pow2(c.k_code()),
        e <= c.epochs(),
    ensures
        expected_value(ntt, q, c, ch, e) == folded_codeword(
            ntt,
            cw,
            c,
            ch,
            folds_before(c, e),
        )[position as int / (pow2(folds_before(c, e)) as int)],
{
    let b = c.log_batch as int;
    lemma2_to64();
    if e == 0 {
        let n = pow2(c.k_code());
        let p = position as int;
        assert(folds_before(c, 0) == 0);
        assert(p * 1 == p && p * 1 + 1 <= n);
        lemma_fold_low_local(cw, ch.take(b), n, p, 1);
        let l = c.lanes();
        assert(1 * l == l);
        lemma_fold_low_len(cw, ch.take(b), n);
        assert(ch.subrange(b, b + 0) =~= Seq::<F128>::empty());
        assert(fold_low_all(q.initial_leaf@, ch.take(b))[0] == fold_low_all(
            cw,
            ch.take(b),
        ).subrange(p, p + 1)[0]);
        assert(p / 1 == p);
    } else {
        let f = (e - 1) as nat;
        lemma_epoch(c, f);
        lemma_epoch_index(c, f, position as int);
        lemma_folded_len(ntt, cw, c, ch, 6 * f);
        lemma_folded_len(ntt, cw, c, ch, 6 * f + c.arity(f));
        lemma_epoch_folds(ntt, cw, c, ch, f);
        let w = folded_codeword(ntt, cw, c, ch, 6 * f);
        let rs = epoch_challenges(c, ch, f);
        let p = epoch_index(c, f, position as int);
        assert(rs.len() == c.arity(f));
        assert(p * 1 == p);
        lemma_fri_fold_local(ntt, w, (c.k_code() - 6 * f) as nat, rs, pow2(c.epoch_log(f)), p, 1);
        let l = pow2(c.arity(f));
        assert(1 * l == l);
        if f > 0 {
            assert(q.epoch_leaves@[f - 1]@ == epoch_leaf(
                ntt,
                cw,
                c,
                ch,
                (f - 1 + 1) as nat,
                position as int,
            ));
        }
        assert(query_leaf(q, f) == w.subrange(p * l, p * l + l));
        assert(folds_before(c, e) == 6 * f + c.arity(f));
    }
}

/// Nothing is wrong with the epochs of an honest query.
proof fn lemma_epochs_pass(
    ntt: &AdditiveNttF128,
    q: QueryOpening,
    cw: Seq<F128>,
    c: Code,
    ch: Seq<F128>,
    position: usize,
    qi: int,
    e: nat,
)
    requires
        opens(q, ntt, cw, c, ch, position),
        cw.len() == pow2(c.k_code()) * c.lanes(),
        ch.len() == c.rounds(),
        position < pow2(c.k_code()),
        c.k_code() <= ntt.dim(),
        e <= c.epochs(),
    ensures
        epochs_error(ntt, q, c, ch, qi, e) is None,
    decreases c.epochs() - e,
{
    if e < c.epochs() {
        lemma_epochs_pass(ntt, q, cw, c, ch, position, qi, e + 1);
        lemma_expected(ntt, q, cw, c, ch, position, e);
        lemma_epoch(c, e);
        lemma_epoch_index(c, e, position as int);
        lemma_position_parts(c, e, position as int);
        lemma_folded_len(ntt, cw, c, ch, 6 * e);
        let w = folded_codeword(ntt, cw, c, ch, 6 * e);
        let l = pow2(c.arity(e)) as int;
        let p = epoch_index(c, e, position as int);
        if e > 0 {
            assert(q.epoch_leaves@[e - 1]@ == epoch_leaf(
                ntt,
                cw,
                c,
                ch,
                (e - 1 + 1) as nat,
                position as int,
            ));
        }
        assert(query_leaf(q, e) == w.subrange(p * l, p * l + l));
        let x = position as int / (pow2(6 * e) as int);
        lemma_pow2_pos(c.arity(e));
        vstd::arithmetic::div_mod::lemma_fundamental_div_mod(x, l);
        assert(l * p == p * l) by (nonlinear_arith);
        assert(w.subrange(p * l, p * l + l)[x % l] == w[p * l + x % l]);
    }
}

/// Nothing is wrong with an honest query.
proof fn lemma_query_passes(
    ntt: &AdditiveNttF128,
    q: QueryOpening,
    cw: Seq<F128>,
    c: Code,
    ch: Seq<F128>,
    position: usize,
    qi: int,
)
    requires
        opens(q, ntt, cw, c, ch, position),
        cw.len() == pow2(c.k_code()) * c.lanes(),
        ch.len() == c.rounds(),
        position < pow2(c.k_code()),
        c.k_code() <= ntt.dim(),
    ensures
        query_error(
            ntt,
            q,
            folded_codeword(ntt, cw, c, ch, c.log_dim),
            c,
            ch,
            qi,
            position,
        ) is None,
{
    lemma_epochs_pass(ntt, q, cw, c, ch, position, qi, 0);
    lemma_expected(ntt, q, cw, c, ch, position, c.epochs());
    let (x, y) = (pow2(c.k_code()) as int, c.lanes() as int);
    let p = position as int;
    assert(0 <= p * y && p * y + y <= x * y) by (nonlinear_arith)
        requires
            0 <= p,
            p + 1 <= x,
            0 <= y,
    ;
}

proof fn lemma_queries_pass(
    ntt: &AdditiveNttF128,
    out: BaseFoldProof,
    cw: Seq<F128>,
    c: Code,
    ch: Seq<F128>,
    positions: Seq<usize>,
    qi: nat,
)
    requires
        out.queries@.len() == positions.len(),
        forall|i: int|
            0 <= i < positions.len() ==> opens(
                #[trigger] out.queries@[i],
                ntt,
                cw,
                c,
                ch,
                positions[i],
            ),
        forall|i: int| 0 <= i < positions.len() ==> #[trigger] positions[i] < pow2(c.k_code()),
        out.final_codeword@ == folded_codeword(ntt, cw, c, ch, c.log_dim),
        cw.len() == pow2(c.k_code()) * c.lanes(),
        ch.len() == c.rounds(),
        c.k_code() <= ntt.dim(),
    ensures
        queries_error(ntt, out, c, ch, positions, qi) is None,
    decreases positions.len() - qi,
{
    if qi < positions.len() {
        assert(positions[qi as int] < pow2(c.k_code()));
        lemma_query_passes(
            ntt,
            out.queries@[qi as int],
            cw,
            c,
            ch,
            positions[qi as int],
            qi as int,
        );
        lemma_queries_pass(ntt, out, cw, c, ch, positions, qi + 1);
    }
}

// ---------------------------------------------------------------------------
// The Merkle paths
// ---------------------------------------------------------------------------

/// The honest multi-proof shows leaves that are what the tree holds.
pub proof fn lemma_paths_hold(
    leaves: Seq<Seq<u8>>,
    d: nat,
    positions: Seq<usize>,
    hashes: Seq<Seq<u8>>,
    sibs: Seq<Seq<u8>>,
)
    requires
        leaves.len() == pow2(d),
        positions.len() > 0,
        hashes.len() == positions.len(),
        forall|i: int| 0 <= i < positions.len() ==> #[trigger] positions[i] < pow2(d),
        forall|i: int| 0 <= i < positions.len() ==> #[trigger] hashes[i] == leaves[positions[i] as int],
        sibs == multi_proof_of(leaves, d, 0, sorted_positions(positions)),
    ensures
        paths_hold(merkle_root(leaves, d), d, positions, hashes, sibs),
{
    lemma_leaves_verify(leaves, d, positions);
    lemma_sorted_from(positions);
    let sorted = sorted_positions(positions);
    assert forall|k: int| 0 <= k < sorted.len() implies hashes_of(positions, hashes, sorted)[k]
        == #[trigger] hashes_at(leaves, sorted)[k] by {
        assert(opened_by(positions, sorted[k]));
        let i = opener(positions, sorted[k]);
        assert(positions[i] == sorted[k]);
        assert(hashes[i] == leaves[positions[i] as int]);
    }
    assert(hashes_of(positions, hashes, sorted) =~= hashes_at(leaves, sorted));
    assert forall|i: int, j: int|
        0 <= i < positions.len() && 0 <= j < positions.len() && #[trigger] positions[i]
            == #[trigger] positions[j] implies hashes[i] == hashes[j] by {
        assert(hashes[i] == leaves[positions[i] as int]);
        assert(hashes[j] == leaves[positions[j] as int]);
    }
}

proof fn lemma_epoch_paths_pass(
    ntt: &AdditiveNttF128,
    out: BaseFoldProof,
    cw: Seq<F128>,
    c: Code,
    ch: Seq<F128>,
    positions: Seq<usize>,
    e: nat,
)
    requires
        positions.len() > 0,
        out.queries@.len() == positions.len(),
        forall|i: int|
            0 <= i < positions.len() ==> opens(
                #[trigger] out.queries@[i],
                ntt,
                cw,
                c,
                ch,
                positions[i],
            ),
        forall|i: int| 0 <= i < positions.len() ==> #[trigger] positions[i] < pow2(c.k_code()),
        pow2(c.k_code()) <= usize::MAX,
        cw.len() == pow2(c.k_code()) * c.lanes(),
        ch.len() == c.rounds(),
        forall|e: nat|
            e < c.epochs() ==> #[trigger] proof_root(out, e) == epoch_root(ntt, cw, c, ch, e),
        forall|e: nat|
            e < c.epochs() ==> hash_views(#[trigger] proof_siblings(out, e)) == multi_proof_of(
                epoch_leaf_hashes(ntt, cw, c, ch, e),
                c.epoch_log(e),
                0,
                sorted_positions(epoch_indices(c, e, positions)),
            ),
    ensures
        epoch_paths_error(out, c, positions, e) is None,
    decreases c.epochs() - e,
{
    if e < c.epochs() {
        lemma_epoch_paths_pass(ntt, out, cw, c, ch, positions, e + 1);
        lemma_epoch(c, e);
        lemma_folded_len(ntt, cw, c, ch, 6 * e);
        let leaves = epoch_leaf_hashes(ntt, cw, c, ch, e);
        let indices = epoch_indices(c, e, positions);
        let hashes = opened_hashes(out.queries@, e);
        let w = folded_codeword(ntt, cw, c, ch, 6 * e);
        assert forall|i: int| 0 <= i < indices.len() implies #[trigger] indices[i] < pow2(
            c.epoch_log(e),
        ) by {
            assert(positions[i] < pow2(c.k_code()));
            lemma_epoch_index(c, e, positions[i] as int);
        }
        assert forall|i: int| 0 <= i < indices.len() implies #[trigger] hashes[i]
            == leaves[indices[i] as int] by {
            assert(positions[i] < pow2(c.k_code()));
            lemma_epoch_index(c, e, positions[i] as int);
            let q = out.queries@[i];
            assert(opens(q, ntt, cw, c, ch, positions[i]));
            if e > 0 {
                assert(q.epoch_leaves@[e - 1]@ == epoch_leaf(
                    ntt,
                    cw,
                    c,
                    ch,
                    (e - 1 + 1) as nat,
                    positions[i] as int,
                ));
            }
            assert(query_leaf(q, e) == leaf_values(
                w,
                pow2(c.epoch_log(e)) as int,
                indices[i] as int,
            ));
        }
        assert(proof_root(out, e) == epoch_root(ntt, cw, c, ch, e));
        assert(hash_views(proof_siblings(out, e)) == multi_proof_of(
            leaves,
            c.epoch_log(e),
            0,
            sorted_positions(indices),
        ));
        lemma_paths_hold(
            leaves,
            c.epoch_log(e),
            indices,
            hashes,
            hash_views(proof_siblings(out, e)),
        );
    }
}

// ---------------------------------------------------------------------------
// Completeness
// ---------------------------------------------------------------------------

/// An honest proof is accepted: the proof that the prover makes for the
/// committed codeword of `a` verifies against the inner product of `a` and
/// `b`. The verifier returns the challenges of the run and leaves the
/// challenger in the prover's state; the two final values are those of the
/// tables at the challenges.
pub proof fn lemma_honest_proof_is_accepted<Ch: Challenger>(
    s: Ch::State,
    end: Ch::State,
    out: BaseFoldProof,
    ntt: &AdditiveNttF128,
    cw: Seq<F128>,
    tree: Seq<Hash32>,
    c: Code,
    a: Seq<F128>,
    b: Seq<F128>,
    prime: Option<(F128, F128)>,
    n_queries: nat,
)
    requires
        prover_inputs_fit(a, b, cw, tree, ntt, c),
        cw == encoded(ntt, a, c.k_code(), c.lanes()),
        is_tree(tree, leaf_hashes(cw, pow2(c.k_code())), c.k_code()),
        prime is Some ==> prime->Some_0 == low_message(a, b),
        n_queries == query_count(c.log_inv_rate),
        honest_run::<Ch>(s, end, out, ntt, cw, tree, c, a, b, prime, n_queries),
    ensures
        ({
            let v = proof_verdict::<Ch>(
                s,
                dot(a, b),
                out,
                merkle_root(leaf_hashes(cw, pow2(c.k_code())), c.k_code()),
                ntt,
                c.log_inv_rate,
                c.log_batch,
            );
            let ch = fold_rounds::<Ch>(
                Ch::after_label(s, basefold_label()),
                ntt,
                cw,
                c,
                a,
                b,
                prime,
                c.rounds(),
            ).challenges;
            &&& v.result == Ok::<Seq<F128>, VerifyError>(ch)
            &&& v.state == end
            &&& ch.len() == c.rounds()
            &&& out.final_a == mle(a, ch)
            &&& out.final_b == mle(b, ch)
        }),
{
    let s1 = Ch::after_label(s, basefold_label());
    let n = c.rounds();
    let p = fold_rounds::<Ch>(s1, ntt, cw, c, a, b, prime, n);
    let ch = p.challenges;
    lemma2_to64();
    lemma_rounds_shape::<Ch>(s1, ntt, cw, c, a, b, prime, n);
    lemma_replay::<Ch>(s, end, out, ntt, cw, tree, c, a, b, prime, n_queries, n);
    lemma_fold_low_to_value(a, ch);
    lemma_fold_low_to_value(b, ch);
    assert(code_of(
        out.round_messages@.len() as int,
        c.log_inv_rate as int,
        c.log_batch as int,
    ) == c);
    // The end of the sumcheck.
    let v = replayed::<Ch>(s1, out, c, dot(a, b), n);
    assert(v.target == out.final_a * out.final_b) by {
        let f = |i: int| p.a[i] * p.b[i];
        assert(dot(p.a, p.b) == crate::algebra::sum(1, f));
        assert(crate::algebra::sum(1, f) == crate::algebra::sum(0, f) + f(0));
        crate::field::gf2_128::lemma_add_rules(f(0), F128::zero(), f(0), f(0));
    }
    lemma_pow2_pos(c.log_inv_rate);
    assert forall|i: int| 0 <= i < out.final_codeword@.len() implies #[trigger] out.final_codeword@[i]
        == mle(a, ch) by {
        lemma_final_codeword(ntt, c, a, ch, 0);
        lemma_final_codeword(ntt, c, a, ch, i);
    }
    lemma_final_codeword(ntt, c, a, ch, 0);
    assert(final_error(out, c, v.target) is None);
    // The queries.
    let positions = query_positions::<Ch>(p.state, c.k_code(), n_queries);
    lemma_pow2_pos(c.k_code());
    assert forall|i: int| 0 <= i < positions.len() implies #[trigger] positions[i] < pow2(
        c.k_code(),
    ) by {
        let raw = Ch::challenge(state_after_samples::<Ch>(p.state, i as nat)).lo as int;
        vstd::arithmetic::div_mod::lemma_mod_bound(raw, pow2(c.k_code()) as int);
    }
    assert forall|i: int| 0 <= i < positions.len() implies opens(
        #[trigger] out.queries@[i],
        ntt,
        cw,
        c,
        ch,
        positions[i],
    ) by {}
    lemma_queries_pass(ntt, out, cw, c, ch, positions, 0);
    // The Merkle paths.
    let leaves = leaf_hashes(cw, pow2(c.k_code()));
    lemma_multi_proof_of_tree(tree, leaves, c.k_code(), 0, sorted_positions(positions));
    let hashes = initial_hashes(out.queries@);
    assert forall|i: int| 0 <= i < positions.len() implies #[trigger] hashes[i]
        == leaves[positions[i] as int] by {
        assert(opens(out.queries@[i], ntt, cw, c, ch, positions[i]));
        let (x, y) = (pow2(c.k_code()) as int, c.lanes() as int);
        assert(x * y == y * x) by (nonlinear_arith);
        vstd::arithmetic::div_mod::lemma_fundamental_div_mod_converse(x * y, x, y, 0);
        assert(out.queries@[i].initial_leaf@ == leaf_values(cw, x, positions[i] as int));
    }
    lemma_paths_hold(
        leaves,
        c.k_code(),
        positions,
        hashes,
        hash_views(out.initial_multi_proof@),
    );
    assert forall|e: nat| e < c.epochs() implies #[trigger] proof_root(out, e) == epoch_root(
        ntt,
        cw,
        c,
        ch,
        e,
    ) by {
        if e > 0 {
            assert(out.round_commitments@[e - 1].root@ == epoch_root(
                ntt,
                cw,
                c,
                ch,
                (e - 1 + 1) as nat,
            ));
        }
    }
    assert forall|e: nat| e < c.epochs() implies hash_views(#[trigger] proof_siblings(out, e))
        == multi_proof_of(
        epoch_leaf_hashes(ntt, cw, c, ch, e),
        c.epoch_log(e),
        0,
        sorted_positions(epoch_indices(c, e, positions)),
    ) by {
        if e > 0 {
            assert(hash_views(out.epoch_multi_proofs@[e - 1]@) == multi_proof_of(
                epoch_leaf_hashes(ntt, cw, c, ch, (e - 1 + 1) as nat),
                c.epoch_log((e - 1 + 1) as nat),
                0,
                sorted_positions(epoch_indices(c, (e - 1 + 1) as nat, positions)),
            ));
        }
    }
    lemma_epoch_paths_pass(ntt, out, cw, c, ch, positions, 0);
}

/// A proof with another number of queries than the rate calls for is
/// rejected, whatever else it holds.
pub proof fn lemma_query_count_is_enforced<Ch: Challenger>(
    s: Ch::State,
    target: F128,
    out: BaseFoldProof,
    root: Seq<u8>,
    ntt: &AdditiveNttF128,
    log_inv_rate: nat,
    log_batch: nat,
)
    requires
        out.queries@.len() != query_count(log_inv_rate),
    ensures
        proof_verdict::<Ch>(s, target, out, root, ntt, log_inv_rate, log_batch).result == Err::<
            Seq<F128>,
            VerifyError,
        >(VerifyError::InvalidProofShape),
{
}

// ---------------------------------------------------------------------------
// The table of the transform
// ---------------------------------------------------------------------------

proof fn lemma_same_coset_fold(
    x: &AdditiveNttF128,
    y: &AdditiveNttF128,
    coset: Seq<F128>,
    log_d: nat,
    idx: int,
    rs: Seq<F128>,
)
    requires
        x.table() == y.table(),
    ensures
        coset_fold_all(x, coset, log_d, idx, rs) == coset_fold_all(y, coset, log_d, idx, rs),
    decreases rs.len(),
{
    if rs.len() > 0 {
        lemma_same_coset_fold(x, y, coset, log_d, idx, rs.drop_last());
        let prev = coset_fold_all(x, coset, log_d, idx, rs.drop_last());
        let (l, at) = ((log_d - rs.len()) as nat, idx * (prev.len() as int / 2));
        assert(fri_fold_at(x, prev, l, at, rs.last()) =~= fri_fold_at(y, prev, l, at, rs.last()));
    }
}

proof fn lemma_same_expected(
    x: &AdditiveNttF128,
    y: &AdditiveNttF128,
    q: QueryOpening,
    c: Code,
    ch: Seq<F128>,
    e: nat,
)
    requires
        x.table() == y.table(),
    ensures
        expected_value(x, q, c, ch, e) == expected_value(y, q, c, ch, e),
{
    if e > 0 {
        let f = (e - 1) as nat;
        lemma_same_coset_fold(
            x,
            y,
            query_leaf(q, f),
            (c.k_code() - 6 * f) as nat,
            epoch_index(c, f, q.position as int),
            epoch_challenges(c, ch, f),
        );
    }
}

proof fn lemma_same_epochs(
    x: &AdditiveNttF128,
    y: &AdditiveNttF128,
    q: QueryOpening,
    c: Code,
    ch: Seq<F128>,
    qi: int,
    e: nat,
)
    requires
        x.table() == y.table(),
    ensures
        epochs_error(x, q, c, ch, qi, e) == epochs_error(y, q, c, ch, qi, e),
    decreases c.epochs() - e,
{
    lemma_same_expected(x, y, q, c, ch, e);
    if e < c.epochs() {
        lemma_same_epochs(x, y, q, c, ch, qi, e + 1);
    }
}

proof fn lemma_same_queries(
    x: &AdditiveNttF128,
    y: &AdditiveNttF128,
    out: BaseFoldProof,
    c: Code,
    ch: Seq<F128>,
    positions: Seq<usize>,
    qi: nat,
)
    requires
        x.table() == y.table(),
    ensures
        queries_error(x, out, c, ch, positions, qi) == queries_error(y, out, c, ch, positions, qi),
    decreases out.queries@.len() - qi,
{
    if qi < out.queries@.len() {
        let q = out.queries@[qi as int];
        lemma_same_epochs(x, y, q, c, ch, qi as int, 0);
        lemma_same_expected(x, y, q, c, ch, c.epochs());
        lemma_same_queries(x, y, out, c, ch, positions, qi + 1);
    }
}

/// The verdict depends on the table of the transform alone.
pub proof fn lemma_verdict_depends_on_table<Ch: Challenger>(
    x: &AdditiveNttF128,
    y: &AdditiveNttF128,
    s: Ch::State,
    target: F128,
    out: BaseFoldProof,
    root: Seq<u8>,
    log_inv_rate: nat,
    log_batch: nat,
)
    requires
        x.table() == y.table(),
    ensures
        proof_verdict::<Ch>(s, target, out, root, x, log_inv_rate, log_batch) == proof_verdict::<Ch>(
            s,
            target,
            out,
            root,
            y,
            log_inv_rate,
            log_batch,
        ),
{
    let n = out.round_messages@.len();
    if log_batch <= n {
        let c = code_of(n as int, log_inv_rate as int, log_batch as int);
        let p = replayed::<Ch>(Ch::after_label(s, basefold_label()), out, c, target, c.rounds());
        let positions = query_positions::<Ch>(p.state, c.k_code(), out.queries@.len());
        lemma_same_queries(x, y, out, c, p.challenges, positions, 0);
    }
}

proof fn lemma_same_fri_fold(
    x: &AdditiveNttF128,
    y: &AdditiveNttF128,
    cw: Seq<F128>,
    log_d: nat,
    rs: Seq<F128>,
)
    requires
        x.table() == y.table(),
    ensures
        fri_fold_all(x, cw, log_d, rs) == fri_fold_all(y, cw, log_d, rs),
    decreases rs.len(),
{
    if rs.len() > 0 {
        lemma_same_fri_fold(x, y, cw, log_d, rs.drop_last());
        let prev = fri_fold_all(x, cw, log_d, rs.drop_last());
        let l = (log_d - rs.len()) as nat;
        assert(fri_fold_at(x, prev, l, 0, rs.last()) =~= fri_fold_at(y, prev, l, 0, rs.last()));
    }
}

proof fn lemma_same_folded(
    x: &AdditiveNttF128,
    y: &AdditiveNttF128,
    cw: Seq<F128>,
    c: Code,
)
    requires
        x.table() == y.table(),
    ensures
        forall|ch: Seq<F128>, f: nat| #[trigger]
            folded_codeword(x, cw, c, ch, f) == folded_codeword(y, cw, c, ch, f),
{
    assert forall|ch: Seq<F128>, f: nat| #[trigger]
        folded_codeword(x, cw, c, ch, f) == folded_codeword(y, cw, c, ch, f) by {
        lemma_same_fri_fold(
            x,
            y,
            fold_low_all(cw, ch.take(c.log_batch as int)),
            c.k_code(),
            ch.subrange(c.log_batch as int, (c.log_batch + f) as int),
        );
    }
}

proof fn lemma_same_rounds<Ch: Challenger>(
    s: Ch::State,
    x: &AdditiveNttF128,
    y: &AdditiveNttF128,
    cw: Seq<F128>,
    c: Code,
    a: Seq<F128>,
    b: Seq<F128>,
    prime: Option<(F128, F128)>,
    t: nat,
)
    requires
        x.table() == y.table(),
    ensures
        fold_rounds::<Ch>(s, x, cw, c, a, b, prime, t) == fold_rounds::<Ch>(
            s,
            y,
            cw,
            c,
            a,
            b,
            prime,
            t,
        ),
    decreases t,
{
    if t > 0 {
        lemma_same_rounds::<Ch>(s, x, y, cw, c, a, b, prime, (t - 1) as nat);
        lemma_same_folded(x, y, cw, c);
        let p = fold_rounds::<Ch>(s, x, cw, c, a, b, prime, t);
        let e = ((t - c.log_batch) / 6) as nat;
        assert(folded_codeword(x, cw, c, p.challenges, 6 * e) == folded_codeword(
            y,
            cw,
            c,
            p.challenges,
            6 * e,
        ));
    }
}

// ---------------------------------------------------------------------------
// Other targets
// ---------------------------------------------------------------------------

/// The challenges of the first rounds stay.
pub(crate) proof fn lemma_replayed_prefix<Ch: Challenger>(
    s: Ch::State,
    out: BaseFoldProof,
    c: Code,
    target: F128,
    t: nat,
    n: nat,
)
    requires
        t <= n,
    ensures
        replayed::<Ch>(s, out, c, target, n).challenges.len() == n,
        replayed::<Ch>(s, out, c, target, t).challenges == replayed::<Ch>(
            s,
            out,
            c,
            target,
            n,
        ).challenges.take(t as int),
    decreases n,
{
    if t < n {
        lemma_replayed_prefix::<Ch>(s, out, c, target, t, (n - 1) as nat);
    } else if n > 0 {
        lemma_replayed_prefix::<Ch>(s, out, c, target, (n - 1) as nat, (n - 1) as nat);
    }
    let ch = replayed::<Ch>(s, out, c, target, n).challenges;
    assert(ch.take(n as int) =~= ch);
    if t < n {
        let prev = replayed::<Ch>(s, out, c, target, (n - 1) as nat).challenges;
        assert(prev.take(t as int) =~= ch.take(t as int));
    }
}

/// One round keeps different targets apart, unless its challenge is zero.
proof fn lemma_round_separates(x: F128, y: F128, u_0: F128, u_2: F128, r: F128)
    requires
        x != y,
        r != F128::zero(),
    ensures
        low_target(x, u_0, u_2, r) != low_target(y, u_0, u_2, r),
{
    let q = r * r * u_2;
    let (p1, p2) = (r * (x + u_2), r * (y + u_2));
    if low_target(x, u_0, u_2, r) == low_target(y, u_0, u_2, r) {
        lemma_add_rules(u_0 + p1, q, q, q);
        lemma_add_rules(u_0 + p2, q, q, q);
        lemma_add_rules(u_0, p1, p1, p1);
        lemma_add_rules(u_0, p2, p2, p2);
        assert(p1 == p2);
        lemma_mul_distributes(r, x + u_2, y + u_2);
        lemma_add_rules(p1, p2, p1, p1);
        lemma_no_zero_divisors(r, (x + u_2) + (y + u_2));
        lemma_add_rules(x, u_2, y, u_2);
        lemma_add_rules(u_2, u_2, u_2, u_2);
        lemma_add_rules(x + y, u_2, u_2, u_2);
        lemma_add_rules(x, y, y, y);
        lemma_add_rules(y, y, y, y);
    }
}

/// With the same challenges, none of them zero, the rounds of a proof keep different
/// targets apart.
pub proof fn lemma_rounds_separate<Ch: Challenger>(
    states: (Ch::State, Ch::State),
    out: BaseFoldProof,
    c: Code,
    targets: (F128, F128),
    t: nat,
)
    requires
        targets.0 != targets.1,
        replayed::<Ch>(states.0, out, c, targets.0, t).challenges == replayed::<Ch>(
            states.1,
            out,
            c,
            targets.1,
            t,
        ).challenges,
        forall|i: int|
            0 <= i < t ==> #[trigger] replayed::<Ch>(
                states.0,
                out,
                c,
                targets.0,
                t,
            ).challenges[i] != F128::zero(),
    ensures
        replayed::<Ch>(states.0, out, c, targets.0, t).target != replayed::<Ch>(
            states.1,
            out,
            c,
            targets.1,
            t,
        ).target,
    decreases t,
{
    if t > 0 {
        let m = (t - 1) as nat;
        lemma_replayed_prefix::<Ch>(states.0, out, c, targets.0, m, t);
        lemma_replayed_prefix::<Ch>(states.1, out, c, targets.1, m, t);
        let (p, q) = (
            replayed::<Ch>(states.0, out, c, targets.0, t).challenges,
            replayed::<Ch>(states.1, out, c, targets.1, t).challenges,
        );
        let p0 = replayed::<Ch>(states.0, out, c, targets.0, m);
        assert forall|i: int| 0 <= i < m implies #[trigger] p0.challenges[i] != F128::zero() by {
            assert(p0.challenges[i] == p[i]);
        }
        lemma_rounds_separate::<Ch>(states, out, c, targets, m);
        let q0 = replayed::<Ch>(states.1, out, c, targets.1, m);
        lemma_replayed_prefix::<Ch>(states.0, out, c, targets.0, m, m);
        lemma_replayed_prefix::<Ch>(states.1, out, c, targets.1, m, m);
        assert(p[m as int] == q[m as int]);
        let msg = out.round_messages@[m as int];
        lemma_round_separates(p0.target, q0.target, msg.u_0, msg.u_2, p[m as int]);
    }
}

// ---------------------------------------------------------------------------
// Equal proofs
// ---------------------------------------------------------------------------

/// The queries hold the same values.
pub open spec fn same_query(x: QueryOpening, y: QueryOpening) -> bool {
    &&& x.position == y.position
    &&& x.initial_leaf@ == y.initial_leaf@
    &&& x.post_row_batch_leaf@ == y.post_row_batch_leaf@
    &&& x.epoch_leaves@.len() == y.epoch_leaves@.len()
    &&& forall|i: int|
        0 <= i < x.epoch_leaves@.len() ==> (#[trigger] x.epoch_leaves@[i])@
            == y.epoch_leaves@[i]@
}

/// The proofs hold the same values, field by field.
pub open spec fn same_proof(x: BaseFoldProof, y: BaseFoldProof) -> bool {
    &&& x.round_messages@ == y.round_messages@
    &&& x.post_row_batch_commit.root@ == y.post_row_batch_commit.root@
    &&& x.round_commitments@.len() == y.round_commitments@.len()
    &&& forall|i: int|
        0 <= i < x.round_commitments@.len() ==> (#[trigger] x.round_commitments@[i]).root@
            == y.round_commitments@[i].root@
    &&& x.final_a == y.final_a
    &&& x.final_b == y.final_b
    &&& x.final_codeword@ == y.final_codeword@
    &&& x.queries@.len() == y.queries@.len()
    &&& forall|i: int|
        0 <= i < x.queries@.len() ==> same_query(#[trigger] x.queries@[i], y.queries@[i])
    &&& hash_views(x.initial_multi_proof@) == hash_views(y.initial_multi_proof@)
    &&& hash_views(x.post_row_batch_multi_proof@) == hash_views(y.post_row_batch_multi_proof@)
    &&& x.epoch_multi_proofs@.len() == y.epoch_multi_proofs@.len()
    &&& forall|i: int|
        0 <= i < x.epoch_multi_proofs@.len() ==> hash_views((#[trigger] x.epoch_multi_proofs@[i])@)
            == hash_views(y.epoch_multi_proofs@[i]@)
}

/// The prover is determined by its inputs: two runs on the same tables, from the same
/// state, with transforms of the same table, give the same proof and end in the same state.
pub proof fn lemma_run_is_determined<Ch: Challenger>(
    s: Ch::State,
    ends: (Ch::State, Ch::State),
    outs: (BaseFoldProof, BaseFoldProof),
    x: &AdditiveNttF128,
    y: &AdditiveNttF128,
    cw: Seq<F128>,
    tree: Seq<Hash32>,
    c: Code,
    a: Seq<F128>,
    b: Seq<F128>,
    prime: Option<(F128, F128)>,
    n_queries: nat,
)
    requires
        x.table() == y.table(),
        honest_run::<Ch>(s, ends.0, outs.0, x, cw, tree, c, a, b, prime, n_queries),
        honest_run::<Ch>(s, ends.1, outs.1, y, cw, tree, c, a, b, prime, n_queries),
    ensures
        same_proof(outs.0, outs.1),
        ends.0 == ends.1,
{
    let s1 = Ch::after_label(s, basefold_label());
    lemma_same_rounds::<Ch>(s1, x, y, cw, c, a, b, prime, c.rounds());
    lemma_same_folded(x, y, cw, c);
    let p = fold_rounds::<Ch>(s1, x, cw, c, a, b, prime, c.rounds());
    let ch = p.challenges;
    let positions = query_positions::<Ch>(p.state, c.k_code(), n_queries);
    let (o, q) = outs;
    assert forall|e: nat| #[trigger] epoch_leaf_hashes(x, cw, c, ch, e) == epoch_leaf_hashes(
        y,
        cw,
        c,
        ch,
        e,
    ) by {
        assert(folded_codeword(x, cw, c, ch, 6 * e) == folded_codeword(y, cw, c, ch, 6 * e));
    }
    assert(o.round_messages@ =~= q.round_messages@);
    assert(folded_codeword(x, cw, c, ch, c.log_dim) == folded_codeword(y, cw, c, ch, c.log_dim));
    assert forall|i: int| 0 <= i < o.round_commitments@.len() implies (
    #[trigger] o.round_commitments@[i]).root@ == q.round_commitments@[i].root@ by {
        assert(epoch_leaf_hashes(x, cw, c, ch, (i + 1) as nat) == epoch_leaf_hashes(
            y,
            cw,
            c,
            ch,
            (i + 1) as nat,
        ));
        assert(q.round_commitments@[i].root@ == epoch_root(y, cw, c, ch, (i + 1) as nat));
    }
    assert forall|i: int| 0 <= i < o.queries@.len() implies same_query(
        #[trigger] o.queries@[i],
        q.queries@[i],
    ) by {
        let (u, v) = (o.queries@[i], q.queries@[i]);
        assert(opens(u, x, cw, c, ch, positions[i]));
        assert(opens(v, y, cw, c, ch, positions[i]));
        assert(folded_codeword(x, cw, c, ch, 0) == folded_codeword(y, cw, c, ch, 0));
        assert forall|k: int| 0 <= k < u.epoch_leaves@.len() implies (
        #[trigger] u.epoch_leaves@[k])@ == v.epoch_leaves@[k]@ by {
            let e = (k + 1) as nat;
            assert(folded_codeword(x, cw, c, ch, 6 * e) == folded_codeword(y, cw, c, ch, 6 * e));
            assert(v.epoch_leaves@[k]@ == epoch_leaf(y, cw, c, ch, e, positions[i] as int));
        }
    }
    assert(epoch_leaf_hashes(x, cw, c, ch, 0) == epoch_leaf_hashes(y, cw, c, ch, 0));
    assert forall|i: int| 0 <= i < o.epoch_multi_proofs@.len() implies hash_views(
        (#[trigger] o.epoch_multi_proofs@[i])@,
    ) == hash_views(q.epoch_multi_proofs@[i]@) by {
        assert(epoch_leaf_hashes(x, cw, c, ch, (i + 1) as nat) == epoch_leaf_hashes(
            y,
            cw,
            c,
            ch,
            (i + 1) as nat,
        ));
        assert(hash_views(q.epoch_multi_proofs@[i]@) == multi_proof_of(
            epoch_leaf_hashes(y, cw, c, ch, (i + 1) as nat),
            c.epoch_log((i + 1) as nat),
            0,
            sorted_positions(epoch_indices(c, (i + 1) as nat, positions)),
        ));
    }
}

} // verus!
