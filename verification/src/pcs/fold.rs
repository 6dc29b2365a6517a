//! Folds of tables and codewords by a challenge.
//!
//! A table is folded in adjacent pairs, which binds its lowest variable. The
//! same fold combines adjacent lanes of an interleaved codeword. A codeword of
//! one lane is folded by undoing its last butterfly layer first, so that the
//! fold of a codeword is the codeword of the folded message.
use vstd::arithmetic::power2::{lemma2_to64, lemma_pow2_pos, lemma_pow2_unfold, pow2};
use vstd::prelude::*;
use vstd::slice::slice_subrange;
use crate::algebra::{
    lemma_sum_add, lemma_sum_ext, lemma_sum_pairs, lemma_sum_scale, sum,
};
use crate::field::gf2_128::{
    lemma_add_rules, lemma_add_zero, lemma_mul_associates, lemma_mul_commutes,
    lemma_mul_distributes, lemma_mul_interchange, lemma_mul_units,
};
use crate::field::F128;
use crate::ntt::additive_ntt_f128::{half_block, lemma_layer_shape, AdditiveNttF128};
use crate::ntt::laws_f128::{
    lemma_forward_layers_len, lemma_zero_padding_layers_repeat, repeated, zero_padded,
};
use crate::ntt::layers::{
    inverse_layer_map, layer_map, lemma_block_inside, lemma_block_of, lemma_in_block,
    lemma_layer_inverts,
};
use crate::zerocheck::multilinear::{dot, eq_table, eq_weight, lemma_weighted_pair, mle};

verus! {

/// `v` folded in adjacent pairs.
pub open spec fn fold_low(v: Seq<F128>, r: F128) -> Seq<F128> {
    Seq::new(v.len() / 2, |i: int| v[2 * i] + r * (v[2 * i] + v[2 * i + 1]))
}

/// `v` folded in adjacent pairs by each challenge in turn.
pub open spec fn fold_low_all(v: Seq<F128>, rs: Seq<F128>) -> Seq<F128>
    decreases rs.len(),
{
    if rs.len() == 0 {
        v
    } else {
        fold_low(fold_low_all(v, rs.drop_last()), rs.last())
    }
}

/// One FRI fold of a pair:
/// ```text
///   v += u; u += v · twiddle
///   result = u + r · (u + v)
/// ```
pub open spec fn fold_pair_spec(twiddle: F128, u_in: F128, v_in: F128, r: F128) -> F128 {
    let v = v_in + u_in;
    let u = u_in + v * twiddle;
    u + r * (u + v)
}

/// The FRI fold of the positions from `at` on of a codeword whose folded
/// positions lie on layer `layer`.
pub open spec fn fri_fold_at(ntt: &AdditiveNttF128, cw: Seq<F128>, layer: nat, at: int, r: F128) -> Seq<
    F128,
> {
    Seq::new(
        cw.len() / 2,
        |i: int|
            fold_pair_spec(ntt.twiddle_at(layer, (at + i) as nat), cw[2 * i], cw[2 * i + 1], r),
    )
}

/// A codeword of `2^log_d` positions folded by each challenge in turn.
pub open spec fn fri_fold_all(ntt: &AdditiveNttF128, cw: Seq<F128>, log_d: nat, rs: Seq<F128>) -> Seq<
    F128,
>
    decreases rs.len(),
{
    if rs.len() == 0 {
        cw
    } else {
        fri_fold_at(
            ntt,
            fri_fold_all(ntt, cw, log_d, rs.drop_last()),
            (log_d - rs.len()) as nat,
            0,
            rs.last(),
        )
    }
}

/// Coset number `idx` of a codeword of `2^log_d` positions, folded by each
/// challenge in turn.
pub open spec fn coset_fold_all(
    ntt: &AdditiveNttF128,
    coset: Seq<F128>,
    log_d: nat,
    idx: int,
    rs: Seq<F128>,
) -> Seq<F128>
    decreases rs.len(),
{
    if rs.len() == 0 {
        coset
    } else {
        let prev = coset_fold_all(ntt, coset, log_d, idx, rs.drop_last());
        fri_fold_at(
            ntt,
            prev,
            (log_d - rs.len()) as nat,
            idx * (prev.len() as int / 2),
            rs.last(),
        )
    }
}

/// The message of a round on adjacent pairs: `(u(0), u(∞))`.
pub open spec fn low_message(a: Seq<F128>, b: Seq<F128>) -> (F128, F128) {
    (
        sum(a.len() / 2, |i: int| a[2 * i] * b[2 * i]),
        sum(a.len() / 2, |i: int| (a[2 * i] + a[2 * i + 1]) * (b[2 * i] + b[2 * i + 1])),
    )
}

/// The value at `r` of the quadratic `u` with `u(0) + u(1) = target`,
/// `u(0) = u_0` and leading coefficient `u_2`.
pub open spec fn low_target(target: F128, u_0: F128, u_2: F128, r: F128) -> F128 {
    u_0 + r * (target + u_2) + r * r * u_2
}

// ---------------------------------------------------------------------------
// Shapes
// ---------------------------------------------------------------------------

pub proof fn lemma_fold_low_len(v: Seq<F128>, rs: Seq<F128>, n: nat)
    requires
        v.len() == n * pow2(rs.len()),
    ensures
        fold_low_all(v, rs).len() == n,
    decreases rs.len(),
{
    lemma2_to64();
    if rs.len() > 0 {
        lemma_pow2_unfold(rs.len());
        let p = pow2((rs.len() - 1) as nat);
        assert(n * (2 * p) == (2 * n) * p) by (nonlinear_arith);
        lemma_fold_low_len(v, rs.drop_last(), 2 * n);
    } else {
        assert(n * 1 == n) by (nonlinear_arith);
    }
}

pub proof fn lemma_fri_fold_len(
    ntt: &AdditiveNttF128,
    cw: Seq<F128>,
    log_d: nat,
    rs: Seq<F128>,
    n: nat,
)
    requires
        cw.len() == n * pow2(rs.len()),
    ensures
        fri_fold_all(ntt, cw, log_d, rs).len() == n,
    decreases rs.len(),
{
    lemma2_to64();
    if rs.len() > 0 {
        lemma_pow2_unfold(rs.len());
        let p = pow2((rs.len() - 1) as nat);
        assert(n * (2 * p) == (2 * n) * p) by (nonlinear_arith);
        lemma_fri_fold_len(ntt, cw, log_d, rs.drop_last(), 2 * n);
    } else {
        assert(n * 1 == n) by (nonlinear_arith);
    }
}

// ---------------------------------------------------------------------------
// Folding a part
// ---------------------------------------------------------------------------

/// Position `p` of the folded table comes from its own `2^k` entries alone.
pub proof fn lemma_fold_low_local(v: Seq<F128>, rs: Seq<F128>, n: nat, p: int, q: nat)
    requires
        v.len() == n * pow2(rs.len()),
        0 <= p,
        p * q + q <= n,
    ensures
        0 <= p * (q * pow2(rs.len())),
        p * (q * pow2(rs.len())) + q * pow2(rs.len()) <= v.len(),
        fold_low_all(
            v.subrange(
                p * (q * pow2(rs.len())),
                p * (q * pow2(rs.len())) + q * pow2(rs.len()),
            ),
            rs,
        ) == fold_low_all(v, rs).subrange(p * q, p * q + q),
    decreases rs.len(),
{
    lemma2_to64();
    lemma_pow2_pos(rs.len());
    let e = pow2(rs.len()) as int;
    assert(0 <= p * (q * e) && p * (q * e) + q * e <= n * e) by (nonlinear_arith)
        requires
            0 <= p,
            0 <= q,
            p * q + q <= n,
            e >= 1,
    ;
    lemma_fold_low_len(v, rs, n);
    assert(0 <= p * q) by (nonlinear_arith)
        requires
            0 <= p,
            0 <= q,
    ;
    if rs.len() == 0 {
        assert(q * 1 == q) by (nonlinear_arith);
    } else {
        lemma_pow2_unfold(rs.len());
        let h = pow2((rs.len() - 1) as nat) as int;
        assert(n * (2 * h) == (2 * n) * h && q * (2 * h) == (2 * q) * h && p * (2 * q) == 2 * (p * q))
            by (nonlinear_arith);
        lemma_fold_low_local(v, rs.drop_last(), 2 * n, p, 2 * q);
        lemma_fold_low_len(v, rs.drop_last(), 2 * n);
        let whole = fold_low_all(v, rs.drop_last());
        let part = v.subrange(p * (q * e), p * (q * e) + q * e);
        let r = rs.last();
        assert(fold_low_all(part, rs.drop_last()) == whole.subrange(2 * (p * q), 2 * (p * q) + 2 * q));
        assert(fold_low(whole.subrange(2 * (p * q), 2 * (p * q) + 2 * q), r) =~= fold_low(whole, r).subrange(
            p * q,
            p * q + q,
        ));
    }
}

/// A coset of the folded codeword comes from its own entries alone.
pub proof fn lemma_fri_fold_local(
    ntt: &AdditiveNttF128,
    cw: Seq<F128>,
    log_d: nat,
    rs: Seq<F128>,
    n: nat,
    p: int,
    q: nat,
)
    requires
        cw.len() == n * pow2(rs.len()),
        0 <= p,
        p * q + q <= n,
    ensures
        0 <= p * (q * pow2(rs.len())),
        p * (q * pow2(rs.len())) + q * pow2(rs.len()) <= cw.len(),
        coset_fold_all(
            ntt,
            cw.subrange(
                p * (q * pow2(rs.len())),
                p * (q * pow2(rs.len())) + q * pow2(rs.len()),
            ),
            log_d,
            p,
            rs,
        ) == fri_fold_all(ntt, cw, log_d, rs).subrange(p * q, p * q + q),
    decreases rs.len(),
{
    lemma2_to64();
    lemma_pow2_pos(rs.len());
    let e = pow2(rs.len()) as int;
    assert(0 <= p * (q * e) && p * (q * e) + q * e <= n * e) by (nonlinear_arith)
        requires
            0 <= p,
            0 <= q,
            p * q + q <= n,
            e >= 1,
    ;
    lemma_fri_fold_len(ntt, cw, log_d, rs, n);
    assert(0 <= p * q) by (nonlinear_arith)
        requires
            0 <= p,
            0 <= q,
    ;
    if rs.len() == 0 {
        assert(q * 1 == q) by (nonlinear_arith);
    } else {
        lemma_pow2_unfold(rs.len());
        let h = pow2((rs.len() - 1) as nat) as int;
        assert(n * (2 * h) == (2 * n) * h && q * (2 * h) == (2 * q) * h && p * (2 * q) == 2 * (p * q))
            by (nonlinear_arith);
        lemma_fri_fold_local(ntt, cw, log_d, rs.drop_last(), 2 * n, p, 2 * q);
        lemma_fri_fold_len(ntt, cw, log_d, rs.drop_last(), 2 * n);
        let whole = fri_fold_all(ntt, cw, log_d, rs.drop_last());
        let part = cw.subrange(p * (q * e), p * (q * e) + q * e);
        let prev = coset_fold_all(ntt, part, log_d, p, rs.drop_last());
        assert(prev == whole.subrange(2 * (p * q), 2 * (p * q) + 2 * q));
        assert(prev.len() as int / 2 == q);
        let layer = (log_d - rs.len()) as nat;
        assert(fri_fold_at(ntt, prev, layer, p * q, rs.last()) =~= fri_fold_at(
            ntt,
            whole,
            layer,
            0,
            rs.last(),
        ).subrange(p * q, p * q + q));
    }
}

// ---------------------------------------------------------------------------
// Executable folds
// ---------------------------------------------------------------------------

/// One FRI fold step.
pub(crate) fn fold_pair(twiddle: F128, u_in: F128, v_in: F128, r: F128) -> (out: F128)
    ensures
        out == fold_pair_spec(twiddle, u_in, v_in, r),
{
    let v = v_in + u_in;
    let u = u_in + v * twiddle;
    u + r * (u + v)
}

/// Fold one row-batch lanes-stack (length `2^a` for `a = challenges.len()`)
/// down to a single F_{2^128} via `a` row-batch folds.
pub(crate) fn row_batch_fold_one(lanes: &[F128], challenges: &[F128]) -> (out: F128)
    requires
        lanes@.len() == pow2(challenges@.len()),
    ensures
        out == fold_low_all(lanes@, challenges@)[0],
{
    let ghost lanes0 = lanes@;
    let n: usize = challenges.len();
    let mut buf: Vec<F128> = vstd::slice::slice_to_vec(lanes);
    let mut k: usize = 0;
    proof {
        assert(challenges@.take(0) =~= Seq::<F128>::empty());
    }
    while k < n
        invariant
            k <= n,
            n == challenges@.len(),
            buf@ == fold_low_all(lanes0, challenges@.take(k as int)),
            buf@.len() == pow2((n - k) as nat),
        decreases n - k,
    {
        proof {
            lemma_pow2_unfold((n - k) as nat);
        }
        let r = challenges[k];
        let len: usize = buf.len();
        let half: usize = len / 2;
        let mut new_buf: Vec<F128> = Vec::with_capacity(half);
        let mut j: usize = 0;
        while j < half
            invariant
                j <= half,
                buf@.len() == 2 * half,
                2 * half <= usize::MAX,
                new_buf@.len() == j,
                forall|q: int|
                    0 <= q < j ==> #[trigger] new_buf@[q] == buf@[2 * q] + r * (buf@[2 * q] + buf@[2 * q
                        + 1]),
            decreases half - j,
        {
            let u = buf[2 * j];
            let v = buf[2 * j + 1];
            new_buf.push(u + r * (u + v));
            j = j + 1;
        }
        proof {
            assert(new_buf@ =~= fold_low(buf@, r));
            assert(challenges@.take(k + 1).drop_last() =~= challenges@.take(k as int));
        }
        buf = new_buf;
        k = k + 1;
    }
    proof {
        assert(challenges@.take(n as int) =~= challenges@);
        lemma2_to64();
    }
    buf[0]
}

/// Fused row-batch fold: collapse each codeword position's `2^k` lanes down to
/// a single value using all `k` row-batch challenges (in round order) in one
/// streaming pass. Equivalent to `k` successive per-round row-batch folds, but
/// reads the codeword once instead of `k` times.
pub(crate) fn row_batch_fold_all(codeword: &[F128], challenges: &[F128]) -> (out: Vec<F128>)
    requires
        challenges@.len() < 64,
        pow2(challenges@.len()) <= usize::MAX,
        codeword@.len() % pow2(challenges@.len()) == 0,
    ensures
        out@ == fold_low_all(codeword@, challenges@),
{
    let num_ntts: usize = crate::index::pow2_usize(challenges.len());
    let total: usize = codeword.len();
    let n_positions: usize = total / num_ntts;
    proof {
        vstd::arithmetic::div_mod::lemma_fundamental_div_mod(total as int, num_ntts as int);
        assert(num_ntts * n_positions == n_positions * num_ntts) by (nonlinear_arith);
        lemma_fold_low_len(codeword@, challenges@, n_positions as nat);
    }
    let ghost all = fold_low_all(codeword@, challenges@);
    let mut out: Vec<F128> = Vec::with_capacity(n_positions);
    let mut p: usize = 0;
    while p < n_positions
        invariant
            p <= n_positions,
            total == codeword@.len(),
            total == n_positions * num_ntts,
            num_ntts == pow2(challenges@.len()),
            all == fold_low_all(codeword@, challenges@),
            all.len() == n_positions,
            out@.len() == p,
            forall|q: int| 0 <= q < p ==> #[trigger] out@[q] == all[q],
        decreases n_positions - p,
    {
        proof {
            assert(p * 1 == p) by (nonlinear_arith);
            assert(1 * num_ntts == num_ntts) by (nonlinear_arith);
            lemma_fold_low_local(codeword@, challenges@, n_positions as nat, p as int, 1);
        }
        let base: usize = p * num_ntts;
        let lanes = slice_subrange(codeword, base, base + num_ntts);
        let value = row_batch_fold_one(lanes, challenges);
        assert(value == all.subrange(p as int, p + 1)[0]);
        out.push(value);
        p = p + 1;
    }
    assert(out@ =~= all);
    out
}

/// FRI fold of a single-lane codeword at the given layer + challenge.
pub(crate) fn fri_fold_codeword(
    codeword: &[F128],
    ntt: &AdditiveNttF128,
    layer: usize,
    challenge: F128,
) -> (out: Vec<F128>)
    requires
        ntt.wf(),
        layer < ntt.dim(),
        layer <= usize::BITS,
    ensures
        out@ == fri_fold_at(ntt, codeword@, layer as nat, 0, challenge),
{
    let len: usize = codeword.len();
    let new_len: usize = len / 2;
    let mut out: Vec<F128> = Vec::with_capacity(new_len);
    let mut i: usize = 0;
    while i < new_len
        invariant
            i <= new_len,
            len == codeword@.len(),
            new_len == len / 2,
            ntt.wf(),
            layer < ntt.dim(),
            layer <= usize::BITS,
            out@.len() == i,
            forall|q: int|
                0 <= q < i ==> #[trigger] out@[q] == fri_fold_at(
                    ntt,
                    codeword@,
                    layer as nat,
                    0,
                    challenge,
                )[q],
        decreases new_len - i,
    {
        let u = codeword[2 * i];
        let v = codeword[2 * i + 1];
        let twiddle = ntt.twiddle(layer, i);
        out.push(fold_pair(twiddle, u, v, challenge));
        i = i + 1;
    }
    assert(out@ =~= fri_fold_at(ntt, codeword@, layer as nat, 0, challenge));
    out
}

/// Fold a FRI coset of `2^a` values down to one value via `a` FRI folds.
///
/// - `coset` has length `2^challenges.len()`.
/// - The coset lives at `input_layer` (so the first fold's post-fold layer is
///   `input_layer − 1`).
/// - `coset_idx` is the index of this coset within the `input_layer`-th codeword
///   divided by `2^a`.
pub(crate) fn fri_fold_coset(
    coset: &[F128],
    challenges: &[F128],
    ntt: &AdditiveNttF128,
    input_layer: usize,
    coset_idx: usize,
) -> (out: F128)
    requires
        ntt.wf(),
        input_layer <= ntt.dim(),
        input_layer <= usize::BITS,
        challenges@.len() <= input_layer,
        coset@.len() == pow2(challenges@.len()),
        coset_idx * coset@.len() + coset@.len() <= usize::MAX,
    ensures
        out == coset_fold_all(ntt, coset@, input_layer as nat, coset_idx as int, challenges@)[0],
{
    let ghost coset0 = coset@;
    let n: usize = challenges.len();
    let mut buf: Vec<F128> = vstd::slice::slice_to_vec(coset);
    let mut k: usize = 0;
    proof {
        assert(challenges@.take(0) =~= Seq::<F128>::empty());
    }
    while k < n
        invariant
            k <= n,
            n == challenges@.len(),
            n <= input_layer,
            ntt.wf(),
            input_layer <= ntt.dim(),
            input_layer <= usize::BITS,
            coset_idx * coset0.len() + coset0.len() <= usize::MAX,
            coset0.len() == pow2(n as nat),
            buf@ == coset_fold_all(
                ntt,
                coset0,
                input_layer as nat,
                coset_idx as int,
                challenges@.take(k as int),
            ),
            buf@.len() == pow2((n - k) as nat),
        decreases n - k,
    {
        proof {
            lemma_pow2_unfold((n - k) as nat);
            if k > 0 {
                vstd::arithmetic::power2::lemma_pow2_strictly_increases((n - k) as nat, n as nat);
            }
        }
        let r = challenges[k];
        let post_fold_layer: usize = input_layer - k - 1;
        let len: usize = buf.len();
        let half: usize = len / 2;
        let ghost at = coset_idx * half;
        let mut new_buf: Vec<F128> = Vec::with_capacity(half);
        let mut j: usize = 0;
        proof {
            assert(0 <= coset_idx * half && coset_idx * half + half <= coset_idx * coset0.len()
                + coset0.len()) by (nonlinear_arith)
                requires
                    0 <= coset_idx,
                    0 <= half <= coset0.len(),
            ;
        }
        while j < half
            invariant
                j <= half,
                buf@.len() == 2 * half,
                2 * half <= usize::MAX,
                ntt.wf(),
                post_fold_layer < ntt.dim(),
                post_fold_layer <= usize::BITS,
                at == coset_idx * half,
                0 <= at,
                at + half <= usize::MAX,
                new_buf@.len() == j,
                forall|q: int|
                    0 <= q < j ==> #[trigger] new_buf@[q] == fri_fold_at(
                        ntt,
                        buf@,
                        post_fold_layer as nat,
                        at,
                        r,
                    )[q],
            decreases half - j,
        {
            let u = buf[2 * j];
            let v = buf[2 * j + 1];
            let pos: usize = coset_idx * half + j;
            let twiddle = ntt.twiddle(post_fold_layer, pos);
            new_buf.push(fold_pair(twiddle, u, v, r));
            j = j + 1;
        }
        proof {
            assert(new_buf@ =~= fri_fold_at(ntt, buf@, post_fold_layer as nat, at, r));
            assert(challenges@.take(k + 1).drop_last() =~= challenges@.take(k as int));
        }
        buf = new_buf;
        k = k + 1;
    }
    proof {
        assert(challenges@.take(n as int) =~= challenges@);
        lemma2_to64();
    }
    buf[0]
}

// ---------------------------------------------------------------------------
// The sumcheck on adjacent pairs
// ---------------------------------------------------------------------------

proof fn lemma_pair_product(a0: F128, a1: F128, b0: F128, b1: F128, r: F128)
    ensures
        (a0 + r * (a0 + a1)) * (b0 + r * (b0 + b1)) == a0 * b0 + r * ((a0 * b0 + a1 * b1) + (a0 + a1)
            * (b0 + b1)) + r * r * ((a0 + a1) * (b0 + b1)),
{
    let (da, db) = (a0 + a1, b0 + b1);
    let (x, y) = (r * da, r * db);
    lemma_mul_distributes(b0 + y, a0, x);
    lemma_mul_distributes(a0, b0, y);
    lemma_mul_distributes(x, b0, y);
    // x y = r r da db
    lemma_mul_interchange(r, da, r, db);
    // a0 y + x b0 = r (a0 db + da b0)
    lemma_mul_commutes(a0, y);
    lemma_mul_associates(r, db, a0);
    lemma_mul_commutes(db, a0);
    lemma_mul_associates(r, da, b0);
    lemma_mul_distributes(r, a0 * db, da * b0);
    // a0 db + da b0 = (a0 b0 + a1 b1) + da db
    lemma_mul_distributes(a0, b0, b1);
    lemma_mul_distributes(b0, a0, a1);
    lemma_mul_distributes(db, a0, a1);
    lemma_mul_distributes(a1, b0, b1);
    let (p, q, s, t) = (a0 * b0, a1 * b1, a0 * b1, a1 * b0);
    assert(a0 * db == p + s);
    assert(da * b0 == p + t);
    assert(da * db == (p + s) + (t + q));
    assert((p + q) + ((p + s) + (t + q)) == (p + s) + (p + t)) by {
        lemma_add_rules(p, q, (p + s) + (t + q), p);
        lemma_add_rules(q, p + s, t + q, p);
        lemma_add_rules(p + s, q, t + q, p);
        lemma_add_rules(q, t, q, q);
        lemma_add_rules(t, q, q, q);
        lemma_add_rules(q, t + q, t, t);
        lemma_add_rules(p, p + s, t, t);
        lemma_add_rules(p + s, p, t, t);
    }
    // regroup: (p + u) + (v + w) = p + (u + v) + w
    let (u, v, w) = (a0 * y, x * b0, x * y);
    lemma_add_rules(p, u, v + w, p);
    lemma_add_rules(u, v, w, p);
    lemma_add_rules(p, u + v, w, p);
}

/// One round: folding both tables by `r` turns the sum of the products into
/// the value at `r` of the round's quadratic.
pub proof fn lemma_low_round(a: Seq<F128>, b: Seq<F128>, r: F128)
    requires
        a.len() == b.len(),
        a.len() % 2 == 0,
    ensures
        ({
            let (u_0, u_2) = low_message(a, b);
            dot(fold_low(a, r), fold_low(b, r)) == low_target(dot(a, b), u_0, u_2, r)
        }),
{
    let h = a.len() / 2;
    let (u_0, u_2) = low_message(a, b);
    let f = |i: int| a[i] * b[i];
    lemma_sum_pairs(h, f);
    let e0 = |i: int| a[2 * i] * b[2 * i];
    let e1 = |i: int| a[2 * i + 1] * b[2 * i + 1];
    let pair = |i: int| e0(i) + e1(i);
    lemma_sum_ext(h, |i: int| f(2 * i) + f(2 * i + 1), pair);
    let inf = |i: int| (a[2 * i] + a[2 * i + 1]) * (b[2 * i] + b[2 * i + 1]);
    let mid = |i: int| pair(i) + inf(i);
    lemma_sum_add(h, pair, inf);
    lemma_sum_scale(h, r, mid);
    lemma_sum_scale(h, r * r, inf);
    let mid_r = |i: int| r * mid(i);
    let inf_r = |i: int| (r * r) * inf(i);
    let p1 = |i: int| e0(i) + mid_r(i);
    lemma_sum_add(h, e0, mid_r);
    let p2 = |i: int| p1(i) + inf_r(i);
    lemma_sum_add(h, p1, inf_r);
    let (fa, fb) = (fold_low(a, r), fold_low(b, r));
    let g = |i: int| fa[i] * fb[i];
    assert forall|i: int| 0 <= i < h implies #[trigger] g(i) == p2(i) by {
        lemma_pair_product(a[2 * i], a[2 * i + 1], b[2 * i], b[2 * i + 1], r);
    }
    lemma_sum_ext(h, g, p2);
}

/// Folding a table by `r` binds its lowest variable: the value at `point` of
/// the folded table is the value of the table at `r` followed by `point`.
pub proof fn lemma_fold_low_is_evaluation(v: Seq<F128>, r: F128, point: Seq<F128>)
    requires
        v.len() == pow2(point.len() + 1),
    ensures
        mle(v, seq![r] + point) == mle(fold_low(v, r), point),
        fold_low(v, r).len() == pow2(point.len()),
{
    let h = pow2(point.len());
    lemma_pow2_unfold(point.len() + 1);
    let full = seq![r] + point;
    let f = |i: int| v[i] * eq_table(full)[i];
    lemma_sum_pairs(h, f);
    let pairs = |i: int| f(2 * i) + f(2 * i + 1);
    let b = fold_low(v, r);
    let g = |i: int| b[i] * eq_table(point)[i];
    assert forall|i: int| 0 <= i < h implies #[trigger] pairs(i) == g(i) by {
        lemma_eq_weight_front(point, r, i as nat);
        let e = eq_weight(point, i as nat);
        let (x, y) = (v[2 * i], v[2 * i + 1]);
        lemma_weighted_pair(x, y, r, e);
        lemma_mul_commutes(e, F128::one() + r);
        lemma_mul_commutes(e, r);
        lemma_add_rules(x, y, y, y);
        assert(eq_table(full)[2 * i] == (F128::one() + r) * e);
        assert(eq_table(full)[2 * i + 1] == r * e);
    }
    lemma_sum_ext(h, pairs, g);
}

/// The weights with one more coordinate in front.
pub proof fn lemma_eq_weight_front(point: Seq<F128>, r: F128, i: nat)
    ensures
        eq_weight(seq![r] + point, 2 * i) == (F128::one() + r) * eq_weight(point, i),
        eq_weight(seq![r] + point, 2 * i + 1) == r * eq_weight(point, i),
    decreases point.len(),
{
    let full = seq![r] + point;
    crate::index::lemma_double_bits(i, 0);
    if point.len() == 0 {
        assert(full.drop_last() =~= Seq::<F128>::empty());
        assert(full.last() == r);
        lemma_mul_units(r);
        lemma_mul_units(F128::one() + r);
        assert(eq_weight(Seq::<F128>::empty(), 2 * i) == F128::one());
        assert(eq_weight(Seq::<F128>::empty(), 2 * i + 1) == F128::one());
        assert(eq_weight(point, i) == F128::one());
    } else {
        let p = point.drop_last();
        assert(full.drop_last() =~= seq![r] + p);
        assert(full.last() == point.last());
        lemma_eq_weight_front(p, r, i);
        crate::index::lemma_double_bits(i, (point.len() - 1) as nat);
        let c = crate::zerocheck::multilinear::eq_factor(
            point.last(),
            crate::index::index_bit(i, (point.len() - 1) as nat),
        );
        lemma_mul_associates(F128::one() + r, eq_weight(p, i), c);
        lemma_mul_associates(r, eq_weight(p, i), c);
        assert(full.len() - 1 == point.len());
        assert(eq_weight(point, i) == eq_weight(p, i) * c);
        assert(eq_weight(full, 2 * i) == eq_weight(seq![r] + p, 2 * i) * c);
        assert(eq_weight(full, 2 * i + 1) == eq_weight(seq![r] + p, 2 * i + 1) * c);
    }
}

/// Folding a table by all challenges evaluates it at them.
pub proof fn lemma_fold_low_all_is_evaluation(v: Seq<F128>, rs: Seq<F128>, point: Seq<F128>)
    requires
        v.len() == pow2(rs.len() + point.len()),
    ensures
        fold_low_all(v, rs).len() == pow2(point.len()),
        mle(v, rs + point) == mle(fold_low_all(v, rs), point),
    decreases rs.len(),
{
    if rs.len() == 0 {
        assert(rs + point =~= point);
    } else {
        let prev = rs.drop_last();
        let next = seq![rs.last()] + point;
        lemma_fold_low_all_is_evaluation(v, prev, next);
        assert(prev + next =~= rs + point);
        lemma_fold_low_is_evaluation(fold_low_all(v, prev), rs.last(), point);
    }
}

/// The last entry left is the value at the challenges.
pub proof fn lemma_fold_low_to_value(v: Seq<F128>, rs: Seq<F128>)
    requires
        v.len() == pow2(rs.len()),
    ensures
        fold_low_all(v, rs).len() == 1,
        fold_low_all(v, rs)[0] == mle(v, rs),
{
    let none = Seq::<F128>::empty();
    lemma2_to64();
    lemma_fold_low_all_is_evaluation(v, rs, none);
    assert(rs + none =~= rs);
    let w = fold_low_all(v, rs);
    let f = |i: int| w[i] * eq_table(none)[i];
    assert(sum(1, f) == sum(0, f) + f(0));
    lemma_mul_units(w[0]);
    lemma_add_rules(w[0], F128::zero(), w[0], w[0]);
}

// ---------------------------------------------------------------------------
// Folds of codewords
// ---------------------------------------------------------------------------

/// The codeword of a message: the transform, over `2^log_d` positions of
/// `lanes` lanes, of the message followed by zeros.
pub open spec fn encoded(ntt: &AdditiveNttF128, msg: Seq<F128>, log_d: nat, lanes: nat) -> Seq<F128> {
    ntt.forward_layers(zero_padded(msg, pow2(log_d) * lanes), log_d, lanes, 0, log_d)
}

/// Folding adjacent lanes commutes with a butterfly layer.
proof fn lemma_fold_layer(s: Seq<F128>, h: int, tw: spec_fn(int) -> F128, r: F128)
    requires
        h > 0,
        s.len() as int % (4 * h) == 0,
    ensures
        fold_low(layer_map(s, 2 * h, tw), r) == layer_map(fold_low(s, r), h, tw),
{
    let f = layer_map(s, 2 * h, tw);
    let w = fold_low(s, r);
    let (x, y) = (fold_low(f, r), layer_map(w, h, tw));
    assert(4 * h == 2 * (2 * h));
    assert(s.len() % 2 == 0) by {
        vstd::arithmetic::div_mod::lemma_fundamental_div_mod(s.len() as int, 4 * h);
        let n = s.len() as int / (4 * h);
        assert(s.len() == 2 * (2 * h * n)) by (nonlinear_arith)
            requires
                s.len() == (4 * h) * n,
        ;
    }
    assert forall|p: int| 0 <= p < w.len() implies #[trigger] x[p] == y[p] by {
        let q = 2 * p;
        lemma_block_of(q, 4 * h);
        lemma_block_inside(q, 4 * h, s.len() as int);
        let b = q / (4 * h);
        let t = tw(b);
        assert((b + 1) * (4 * h) == b * (4 * h) + 4 * h && b * (4 * h) == 2 * (b * (2 * h)) && (b + 1)
            * (2 * h) == b * (2 * h) + 2 * h && (b + 1) * (2 * (2 * h)) == (b + 1) * (4 * h) && b * (2
            * (2 * h)) == b * (4 * h)) by (nonlinear_arith);
        let off = q - b * (4 * h);
        lemma_in_block(p, b, 2 * h);
        lemma_in_block(q, b, 2 * (2 * h));
        lemma_in_block(q + 1, b, 2 * (2 * h));
        assert(p % (2 * h) == p - b * (2 * h));
        if p % (2 * h) < h {
            let (u0, u1, v0, v1) = (s[q], s[q + 1], s[q + 2 * h], s[q + 1 + 2 * h]);
            assert(f[q] == u0 + v0 * t);
            assert(f[q + 1] == u1 + v1 * t);
            assert(2 * (p + h) == q + 2 * h);
            assert(w[p] == u0 + r * (u0 + u1));
            assert(w[p + h] == v0 + r * (v0 + v1));
            lemma_fold_sum(u0, u1, v0, v1, t, r);
        } else {
            let (u0, u1, v0, v1) = (s[q - 2 * h], s[q + 1 - 2 * h], s[q], s[q + 1]);
            assert(f[q] == v0 + (u0 + v0 * t));
            assert(f[q + 1] == v1 + (u1 + v1 * t));
            assert(2 * (p - h) == q - 2 * h);
            assert(w[p - h] == u0 + r * (u0 + u1));
            assert(w[p] == v0 + r * (v0 + v1));
            lemma_fold_sum(u0, u1, v0, v1, t, r);
            let (c0, c1) = (u0 + v0 * t, u1 + v1 * t);
            lemma_mul_units(F128::one());
            lemma_fold_plain_sum(v0, v1, c0, c1, r);
        }
    }
    assert(x =~= y);
}

/// `fold(u + v·t) = fold(u) + fold(v)·t`.
proof fn lemma_fold_sum(u0: F128, u1: F128, v0: F128, v1: F128, t: F128, r: F128)
    ensures
        (u0 + v0 * t) + r * ((u0 + v0 * t) + (u1 + v1 * t)) == (u0 + r * (u0 + u1)) + (v0 + r * (v0
            + v1)) * t,
{
    lemma_fold_plain_sum(u0, u1, v0 * t, v1 * t, r);
    lemma_mul_distributes(t, v0, v1);
    lemma_mul_distributes(t, v0, r * (v0 + v1));
    lemma_mul_associates(r, v0 + v1, t);
}

/// `fold(u + v) = fold(u) + fold(v)`.
proof fn lemma_fold_plain_sum(u0: F128, u1: F128, v0: F128, v1: F128, r: F128)
    ensures
        (u0 + v0) + r * ((u0 + v0) + (u1 + v1)) == (u0 + r * (u0 + u1)) + (v0 + r * (v0 + v1)),
{
    lemma_add_rules(u0, v0, u1, v1);
    lemma_mul_distributes(r, u0 + u1, v0 + v1);
    lemma_add_rules(u0, v0, r * (u0 + u1), r * (v0 + v1));
}

/// Folding adjacent lanes commutes with the transform.
pub proof fn lemma_fold_layers(
    ntt: &AdditiveNttF128,
    s: Seq<F128>,
    log_d: nat,
    lanes: nat,
    to: nat,
    r: F128,
)
    requires
        lanes > 0,
        to <= log_d,
        s.len() == pow2(log_d) * (2 * lanes),
    ensures
        fold_low(ntt.forward_layers(s, log_d, 2 * lanes, 0, to), r) == ntt.forward_layers(
            fold_low(s, r),
            log_d,
            lanes,
            0,
            to,
        ),
    decreases to,
{
    if to > 0 {
        let l = (to - 1) as nat;
        lemma_fold_layers(ntt, s, log_d, lanes, l, r);
        lemma_forward_layers_len(ntt, s, log_d, 2 * lanes, 0, l);
        lemma_layer_shape(log_d, 2 * lanes, l);
        lemma_layer_shape(log_d, lanes, l);
        let h = half_block(log_d, lanes, l);
        let e = pow2((log_d - l - 1) as nat);
        assert(half_block(log_d, 2 * lanes, l) == 2 * h) by (nonlinear_arith)
            requires
                half_block(log_d, 2 * lanes, l) == e * (2 * lanes),
                h == e * lanes,
        ;
        assert(2 * (2 * h) == 4 * h);
        lemma_fold_layer(
            ntt.forward_layers(s, log_d, 2 * lanes, 0, l),
            h,
            ntt.layer_twiddles(l),
            r,
        );
    }
}

/// Folding a padded message.
proof fn lemma_fold_padded(msg: Seq<F128>, n: nat, r: F128)
    requires
        msg.len() % 2 == 0,
        msg.len() <= 2 * n,
    ensures
        fold_low(zero_padded(msg, 2 * n), r) == zero_padded(fold_low(msg, r), n),
{
    lemma_mul_units(r);
    lemma_add_zero(F128::zero());
    assert(fold_low(zero_padded(msg, 2 * n), r) =~= zero_padded(fold_low(msg, r), n));
}

/// Folding adjacent lanes of the codeword of a message gives the codeword of
/// the folded message.
pub proof fn lemma_row_fold_of_codeword(
    ntt: &AdditiveNttF128,
    msg: Seq<F128>,
    log_d: nat,
    lanes: nat,
    r: F128,
)
    requires
        lanes > 0,
        msg.len() % 2 == 0,
        msg.len() <= pow2(log_d) * (2 * lanes),
    ensures
        fold_low(encoded(ntt, msg, log_d, 2 * lanes), r) == encoded(
            ntt,
            fold_low(msg, r),
            log_d,
            lanes,
        ),
{
    let n = pow2(log_d) * lanes;
    assert(pow2(log_d) * (2 * lanes) == 2 * n) by (nonlinear_arith)
        requires
            n == pow2(log_d) * lanes,
    ;
    lemma_fold_layers(ntt, zero_padded(msg, 2 * n), log_d, lanes, log_d, r);
    lemma_fold_padded(msg, n, r);
}

/// Layers of one lane over `2^(log_d + 1)` positions are those of two lanes
/// over `2^log_d`, as far as both go.
proof fn lemma_one_lane_is_two(ntt: &AdditiveNttF128, s: Seq<F128>, log_d: nat, to: nat)
    requires
        to <= log_d,
    ensures
        ntt.forward_layers(s, log_d + 1, 1, 0, to) == ntt.forward_layers(s, log_d, 2, 0, to),
    decreases to,
{
    if to > 0 {
        let l = (to - 1) as nat;
        lemma_one_lane_is_two(ntt, s, log_d, l);
        lemma_pow2_unfold((log_d - l) as nat);
        assert(half_block(log_d + 1, 1, l) == half_block(log_d, 2, l));
    }
}

/// The FRI fold of the codeword of a message is the codeword of the folded
/// message.
pub proof fn lemma_fri_fold_of_codeword(
    ntt: &AdditiveNttF128,
    msg: Seq<F128>,
    log_d: nat,
    r: F128,
)
    requires
        msg.len() % 2 == 0,
        msg.len() <= pow2(log_d + 1),
    ensures
        fri_fold_at(ntt, encoded(ntt, msg, log_d + 1, 1), log_d, 0, r) == encoded(
            ntt,
            fold_low(msg, r),
            log_d,
            1,
        ),
{
    lemma_pow2_unfold(log_d + 1);
    let n = pow2(log_d);
    let s = zero_padded(msg, 2 * n);
    assert(pow2(log_d + 1) * 1 == 2 * n);
    let before = ntt.forward_layers(s, log_d + 1, 1, 0, log_d);
    let cw = encoded(ntt, msg, log_d + 1, 1);
    let tw = ntt.layer_twiddles(log_d);
    lemma2_to64();
    assert(half_block(log_d + 1, 1, log_d) == 1);
    lemma_forward_layers_len(ntt, s, log_d + 1, 1, 0, log_d);
    assert(cw == layer_map(before, 1, tw));
    assert(before.len() as int % 2 == 0);
    lemma_layer_inverts(before, 1, tw);
    // undoing the last layer and folding
    let folded = fri_fold_at(ntt, cw, log_d, 0, r);
    assert forall|i: int| 0 <= i < n implies #[trigger] folded[i] == fold_low(before, r)[i] by {
        let p = 2 * i;
        assert(p % 2 == 0 && p / 2 == i && (p + 1) % 2 == 1 && (p + 1) / 2 == i);
        let g = inverse_layer_map(cw, 1, tw);
        assert(g[p] == cw[p] + (cw[p + 1] + cw[p]) * tw(i));
        assert(g[p + 1] == cw[p + 1] + cw[p]);
        assert(before[p] == g[p] && before[p + 1] == g[p + 1]);
    }
    assert(folded =~= fold_low(before, r));
    lemma_one_lane_is_two(ntt, s, log_d, log_d);
    assert(n * (2 * 1nat) == 2 * n) by (nonlinear_arith);
    lemma_fold_layers(ntt, s, log_d, 1, log_d, r);
    lemma_fold_padded(msg, n, r);
    assert(n * 1 == n) by (nonlinear_arith);
}

/// The codeword of a single entry repeats it.
pub proof fn lemma_constant_codeword(ntt: &AdditiveNttF128, v: F128, log_d: nat, i: int)
    requires
        0 <= i < pow2(log_d),
    ensures
        encoded(ntt, seq![v], log_d, 1)[i] == v,
        encoded(ntt, seq![v], log_d, 1).len() == pow2(log_d),
{
    lemma2_to64();
    lemma_zero_padding_layers_repeat(ntt, seq![v], log_d, 1, log_d);
    let n = pow2(log_d) * 1;
    assert(repeated(seq![v], n)[i] == v);
}

} // verus!
