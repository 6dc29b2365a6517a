//! The BaseFold prover.
use vstd::arithmetic::power2::{lemma2_to64, lemma_pow2_adds, lemma_pow2_pos, lemma_pow2_unfold, pow2};
use vstd::bytes::u64_from_le_bytes;
use vstd::prelude::*;
use vstd::slice::slice_subrange;
use crate::algebra::sum;
use crate::challenger::Challenger;
use crate::field::F128;
use crate::hash::Hash32;
use crate::index::{lemma_log2, lemma_pow2_fits, log2, log2_pow2, pow2_usize, power_of_two, shifted_right};
use crate::merkle::{
    hash_views, is_tree, leaf_hashes, lemma_multi_proof_of_tree, lemma_root_is_last,
    merkle_multi_proof, merkle_tree, multi_proof_of, sorted_positions,
};
use crate::ntt::AdditiveNttF128;
use crate::pcs::basefold::{
    basefold_label, epoch_index, epoch_indices, epoch_leaf, epoch_leaf_hashes, epoch_root,
    fold_rounds, folded_codeword, honest_run, next_message, opens, query_position,
    query_positions, root_element, state_after_samples, BaseFoldProof, Code, QueryOpening,
    RoundCommitment, RoundMessage,
};
use crate::pcs::commit::compute_fri_arities;
use crate::pcs::fold::{
    fold_low, fold_low_all, fri_fold_codeword, lemma_fold_low_len, lemma_fri_fold_len, low_message,
    row_batch_fold_all,
};

verus! {

/// The inputs of the prover fit together.
pub open spec fn prover_inputs_fit(
    a: Seq<F128>,
    b: Seq<F128>,
    cw: Seq<F128>,
    tree: Seq<Hash32>,
    ntt: &AdditiveNttF128,
    c: Code,
) -> bool {
    &&& c.log_batch >= 1
    &&& a.len() == pow2(c.rounds())
    &&& b.len() == a.len()
    &&& cw.len() == pow2(c.k_code()) * c.lanes()
    &&& cw.len() <= usize::MAX
    &&& tree.len() == 2 * pow2(c.k_code()) - 1
    &&& 2 * pow2(c.k_code()) <= usize::MAX
    &&& ntt.wf()
    &&& c.k_code() <= ntt.dim()
}

/// The code of a message of `2^log_msg_len` elements.
pub open spec fn code_of(log_msg_len: int, log_inv_rate: int, log_batch_size: int) -> Code {
    Code {
        log_dim: (log_msg_len - log_batch_size) as nat,
        log_inv_rate: log_inv_rate as nat,
        log_batch: log_batch_size as nat,
    }
}

/// The element that a root is observed as.
pub(crate) fn root_to_f128(root: &Hash32) -> (e: F128)
    ensures
        e == root_element(root@),
{
    let lo = slice_subrange(root, 0, 8);
    let hi = slice_subrange(root, 8, 16);
    F128 { lo: u64_from_le_bytes(lo), hi: u64_from_le_bytes(hi) }
}

/// The message of a round on adjacent pairs.
pub(crate) fn round_prime(a: &[F128], b: &[F128]) -> (m: (F128, F128))
    requires
        a@.len() == b@.len(),
    ensures
        m == low_message(a@, b@),
{
    let len: usize = a.len();
    let half: usize = len / 2;
    let ghost f0 = |i: int| a@[2 * i] * b@[2 * i];
    let ghost f2 = |i: int| (a@[2 * i] + a@[2 * i + 1]) * (b@[2 * i] + b@[2 * i + 1]);
    let mut u_0 = F128::zero();
    let mut u_2 = F128::zero();
    let mut i: usize = 0;
    while i < half
        invariant
            i <= half,
            len == a@.len(),
            len == b@.len(),
            half == len / 2,
            f0 == (|i: int| a@[2 * i] * b@[2 * i]),
            f2 == (|i: int| (a@[2 * i] + a@[2 * i + 1]) * (b@[2 * i] + b@[2 * i + 1])),
            u_0 == sum(i as nat, f0),
            u_2 == sum(i as nat, f2),
        decreases half - i,
    {
        assert(sum((i + 1) as nat, f0) == sum(i as nat, f0) + f0(i as int));
        assert(sum((i + 1) as nat, f2) == sum(i as nat, f2) + f2(i as int));
        let (a0, a1, b0, b1) = (a[2 * i], a[2 * i + 1], b[2 * i], b[2 * i + 1]);
        u_0 = u_0 + a0 * b0;
        u_2 = u_2 + (a0 + a1) * (b0 + b1);
        i = i + 1;
    }
    (u_0, u_2)
}

/// Fold both tables at `r` and compute the next round's message in the same
/// pass: each output *pair* is folded from four inputs in one read, and that
/// pair's contribution to the message is accumulated. The final round (one
/// pair) has no next message.
fn fold_and_message(a: &[F128], b: &[F128], r: F128) -> (out: (Vec<F128>, Vec<F128>, F128, F128))
    requires
        a@.len() == b@.len(),
        a@.len() == 2 || a@.len() % 4 == 0,
    ensures
        out.0@ == fold_low(a@, r),
        out.1@ == fold_low(b@, r),
        a@.len() % 4 == 0 ==> (out.2, out.3) == low_message(out.0@, out.1@),
{
    let len: usize = a.len();
    let half: usize = len / 2;
    let ghost (fa, fb) = (fold_low(a@, r), fold_low(b@, r));
    let mut a_out: Vec<F128> = Vec::with_capacity(half);
    let mut b_out: Vec<F128> = Vec::with_capacity(half);
    let mut u_0 = F128::zero();
    let mut u_2 = F128::zero();
    if half == 1 {
        a_out.push(a[0] + r * (a[0] + a[1]));
        b_out.push(b[0] + r * (b[0] + b[1]));
        assert(a_out@ =~= fa);
        assert(b_out@ =~= fb);
        return (a_out, b_out, u_0, u_2);
    }
    let quarter: usize = half / 2;
    let ghost f0 = |i: int| fa[2 * i] * fb[2 * i];
    let ghost f2 = |i: int| (fa[2 * i] + fa[2 * i + 1]) * (fb[2 * i] + fb[2 * i + 1]);
    let mut j: usize = 0;
    while j < quarter
        invariant
            j <= quarter,
            len == a@.len(),
            len == b@.len(),
            len == 4 * quarter,
            fa == fold_low(a@, r),
            fb == fold_low(b@, r),
            a_out@.len() == 2 * j,
            b_out@.len() == 2 * j,
            forall|q: int| 0 <= q < 2 * j ==> #[trigger] a_out@[q] == fa[q],
            forall|q: int| 0 <= q < 2 * j ==> #[trigger] b_out@[q] == fb[q],
            f0 == (|i: int| fa[2 * i] * fb[2 * i]),
            f2 == (|i: int| (fa[2 * i] + fa[2 * i + 1]) * (fb[2 * i] + fb[2 * i + 1])),
            u_0 == sum(j as nat, f0),
            u_2 == sum(j as nat, f2),
        decreases quarter - j,
    {
        let base: usize = 4 * j;
        let af0 = a[base] + r * (a[base] + a[base + 1]);
        let af1 = a[base + 2] + r * (a[base + 2] + a[base + 3]);
        let bf0 = b[base] + r * (b[base] + b[base + 1]);
        let bf1 = b[base + 2] + r * (b[base + 2] + b[base + 3]);
        proof {
            assert(af0 == fa[2 * j] && bf0 == fb[2 * j]);
            assert(2 * (2 * j + 1) == base + 2);
            assert(af1 == fa[2 * j + 1] && bf1 == fb[2 * j + 1]);
            assert(sum((j + 1) as nat, f0) == sum(j as nat, f0) + f0(j as int));
            assert(sum((j + 1) as nat, f2) == sum(j as nat, f2) + f2(j as int));
        }
        a_out.push(af0);
        a_out.push(af1);
        b_out.push(bf0);
        b_out.push(bf1);
        u_0 = u_0 + af0 * bf0;
        u_2 = u_2 + (af0 + af1) * (bf0 + bf1);
        j = j + 1;
    }
    proof {
        assert(a_out@ =~= fa);
        assert(b_out@ =~= fb);
        assert(fa.len() / 2 == quarter);
        crate::algebra::lemma_sum_ext(
            quarter as nat,
            f0,
            |i: int| a_out@[2 * i] * b_out@[2 * i],
        );
        crate::algebra::lemma_sum_ext(
            quarter as nat,
            f2,
            |i: int| (a_out@[2 * i] + a_out@[2 * i + 1]) * (b_out@[2 * i] + b_out@[2 * i + 1]),
        );
    }
    (a_out, b_out, u_0, u_2)
}

// ---------------------------------------------------------------------------
// Facts about the run
// ---------------------------------------------------------------------------

/// A codeword that is folded already does not depend on later challenges.
pub proof fn lemma_folded_prefix(
    ntt: &AdditiveNttF128,
    cw: Seq<F128>,
    c: Code,
    ch: Seq<F128>,
    longer: Seq<F128>,
    f: nat,
)
    requires
        c.log_batch + f <= ch.len() <= longer.len(),
        longer.take(ch.len() as int) == ch,
    ensures
        folded_codeword(ntt, cw, c, longer, f) == folded_codeword(ntt, cw, c, ch, f),
{
    let b = c.log_batch as int;
    assert(longer.take(b) =~= ch.take(b)) by {
        assert forall|i: int| 0 <= i < b implies longer[i] == ch[i] by {
            assert(longer.take(ch.len() as int)[i] == ch[i]);
        }
    }
    assert(longer.subrange(b, b + f) =~= ch.subrange(b, b + f)) by {
        assert forall|i: int| b <= i < b + f implies longer[i] == ch[i] by {
            assert(longer.take(ch.len() as int)[i] == ch[i]);
        }
    }
}

/// The length of a folded codeword.
pub proof fn lemma_folded_len(
    ntt: &AdditiveNttF128,
    cw: Seq<F128>,
    c: Code,
    ch: Seq<F128>,
    f: nat,
)
    requires
        cw.len() == pow2(c.k_code()) * c.lanes(),
        f <= c.log_dim,
        c.log_batch + f <= ch.len(),
    ensures
        folded_codeword(ntt, cw, c, ch, f).len() == pow2((c.k_code() - f) as nat),
        fold_low_all(cw, ch.take(c.log_batch as int)).len() == pow2(c.k_code()),
{
    lemma_fold_low_len(cw, ch.take(c.log_batch as int), pow2(c.k_code()));
    lemma_pow2_adds((c.k_code() - f) as nat, f);
    lemma_fri_fold_len(
        ntt,
        fold_low_all(cw, ch.take(c.log_batch as int)),
        c.k_code(),
        ch.subrange(c.log_batch as int, (c.log_batch + f) as int),
        pow2((c.k_code() - f) as nat),
    );
}

/// One fold more.
pub proof fn lemma_folded_step(
    ntt: &AdditiveNttF128,
    cw: Seq<F128>,
    c: Code,
    ch: Seq<F128>,
    f: nat,
)
    requires
        c.log_batch + f + 1 <= ch.len(),
        f < c.k_code(),
    ensures
        folded_codeword(ntt, cw, c, ch, f + 1) == crate::pcs::fold::fri_fold_at(
            ntt,
            folded_codeword(ntt, cw, c, ch, f),
            (c.k_code() - f - 1) as nat,
            0,
            ch[(c.log_batch + f) as int],
        ),
{
    let b = c.log_batch as int;
    let rs = ch.subrange(b, b + f + 1);
    assert(rs.drop_last() =~= ch.subrange(b, b + f));
    assert(rs.last() == ch[b + f]);
}

/// The dimensions of an epoch.
pub proof fn lemma_epoch(c: Code, e: nat)
    requires
        e < c.epochs(),
    ensures
        6 * e < c.log_dim,
        1 <= c.arity(e) <= 6,
        6 * e + c.arity(e) <= c.log_dim,
        e + 1 < c.epochs() ==> c.arity(e) == 6 && 6 * (e + 1) < c.log_dim,
        e + 1 == c.epochs() ==> 6 * e + c.arity(e) == c.log_dim,
        c.epoch_log(e) == c.k_code() - 6 * e - c.arity(e),
        pow2((c.k_code() - 6 * e) as nat) == pow2(c.epoch_log(e)) * pow2(c.arity(e)),
        pow2((c.k_code() - 6 * e) as nat) % pow2(c.epoch_log(e)) == 0,
        pow2((c.k_code() - 6 * e) as nat) / pow2(c.epoch_log(e)) == pow2(c.arity(e)),
        pow2(c.k_code()) == pow2(c.epoch_log(e)) * pow2(6 * e + c.arity(e)),
        pow2(c.epoch_log(e)) <= pow2(c.k_code()),
{
    lemma_pow2_adds(c.epoch_log(e), c.arity(e));
    lemma_pow2_adds(c.epoch_log(e), 6 * e + c.arity(e));
    lemma_pow2_pos(c.epoch_log(e));
    lemma_pow2_pos(6 * e + c.arity(e));
    let (x, y, z) = (
        pow2(c.epoch_log(e)) as int,
        pow2(c.arity(e)) as int,
        pow2(6 * e + c.arity(e)) as int,
    );
    assert(x * y == y * x) by (nonlinear_arith);
    vstd::arithmetic::div_mod::lemma_fundamental_div_mod_converse(x * y, x, y, 0);
    assert(x <= x * z) by (nonlinear_arith)
        requires
            x >= 1,
            z >= 1,
    ;
}

/// A position lies in a leaf of the tree.
pub proof fn lemma_epoch_index(c: Code, e: nat, position: int)
    requires
        e < c.epochs(),
        0 <= position < pow2(c.k_code()),
    ensures
        0 <= epoch_index(c, e, position) < pow2(c.epoch_log(e)),
        0 <= epoch_index(c, e, position) * pow2(c.arity(e)),
        epoch_index(c, e, position) * pow2(c.arity(e)) + pow2(c.arity(e)) <= pow2(
            (c.k_code() - 6 * e) as nat,
        ),
{
    lemma_epoch(c, e);
    let z = pow2(6 * e + c.arity(e)) as int;
    let x = pow2(c.epoch_log(e)) as int;
    let y = pow2(c.arity(e)) as int;
    lemma_pow2_pos(6 * e + c.arity(e));
    lemma_pow2_pos(c.arity(e));
    let q = position / z;
    vstd::arithmetic::div_mod::lemma_fundamental_div_mod(position, z);
    vstd::arithmetic::div_mod::lemma_mod_bound(position, z);
    assert(0 <= q < x) by (nonlinear_arith)
        requires
            position == z * q + position % z,
            0 <= position % z < z,
            0 <= position < x * z,
            z >= 1,
    ;
    assert(0 <= q * y && q * y + y <= x * y) by (nonlinear_arith)
        requires
            0 <= q,
            q + 1 <= x,
            y >= 1,
    ;
}

/// The shape of the run after `t` rounds.
pub proof fn lemma_rounds_shape<Ch: Challenger>(
    s: Ch::State,
    ntt: &AdditiveNttF128,
    cw: Seq<F128>,
    c: Code,
    a: Seq<F128>,
    b: Seq<F128>,
    prime: Option<(F128, F128)>,
    t: nat,
)
    requires
        t <= c.rounds(),
        a.len() == pow2(c.rounds()),
        b.len() == pow2(c.rounds()),
    ensures
        ({
            let p = fold_rounds::<Ch>(s, ntt, cw, c, a, b, prime, t);
            &&& p.messages.len() == t
            &&& p.challenges.len() == t
            &&& p.a == fold_low_all(a, p.challenges)
            &&& p.b == fold_low_all(b, p.challenges)
            &&& p.a.len() == pow2((c.rounds() - t) as nat)
            &&& p.b.len() == pow2((c.rounds() - t) as nat)
        }),
    decreases t,
{
    if t > 0 {
        lemma_rounds_shape::<Ch>(s, ntt, cw, c, a, b, prime, (t - 1) as nat);
        lemma_pow2_unfold((c.rounds() - t + 1) as nat);
        let prev = fold_rounds::<Ch>(s, ntt, cw, c, a, b, prime, (t - 1) as nat);
        let p = fold_rounds::<Ch>(s, ntt, cw, c, a, b, prime, t);
        assert(p.challenges.drop_last() =~= prev.challenges);
    }
}

/// The committed codewords and trees of the first `n` epochs.
spec fn epochs_done(
    words: Seq<Vec<F128>>,
    trees: Seq<Vec<Hash32>>,
    ntt: &AdditiveNttF128,
    cw: Seq<F128>,
    c: Code,
    ch: Seq<F128>,
) -> bool {
    &&& words.len() == trees.len()
    &&& words.len() <= c.epochs()
    &&& words.len() > 0 ==> c.log_batch + 6 * (words.len() - 1) <= ch.len()
    &&& forall|e: int|
        0 <= e < words.len() ==> (#[trigger] words[e])@ == folded_codeword(
            ntt,
            cw,
            c,
            ch,
            (6 * e) as nat,
        )
    &&& forall|e: int|
        0 <= e < trees.len() ==> is_tree(
            (#[trigger] trees[e])@,
            epoch_leaf_hashes(ntt, cw, c, ch, e as nat),
            c.epoch_log(e as nat),
        )
}

proof fn lemma_epochs_done_later(
    words: Seq<Vec<F128>>,
    trees: Seq<Vec<Hash32>>,
    ntt: &AdditiveNttF128,
    cw: Seq<F128>,
    c: Code,
    ch: Seq<F128>,
    longer: Seq<F128>,
)
    requires
        epochs_done(words, trees, ntt, cw, c, ch),
        ch.len() <= longer.len(),
        longer.take(ch.len() as int) == ch,
    ensures
        epochs_done(words, trees, ntt, cw, c, longer),
{
    assert forall|e: int| 0 <= e < words.len() implies (#[trigger] words[e])@ == folded_codeword(
        ntt,
        cw,
        c,
        longer,
        (6 * e) as nat,
    ) by {
        lemma_folded_prefix(ntt, cw, c, ch, longer, (6 * e) as nat);
    }
    assert forall|e: int| 0 <= e < trees.len() implies is_tree(
        (#[trigger] trees[e])@,
        epoch_leaf_hashes(ntt, cw, c, longer, e as nat),
        c.epoch_log(e as nat),
    ) by {
        lemma_folded_prefix(ntt, cw, c, ch, longer, (6 * e) as nat);
    }
}

/// Commit to the codeword of an epoch.
fn commit_epoch(
    codeword: &Vec<F128>,
    arity: usize,
    Ghost(ntt): Ghost<&AdditiveNttF128>,
    Ghost(cw): Ghost<Seq<F128>>,
    Ghost(c): Ghost<Code>,
    Ghost(ch): Ghost<Seq<F128>>,
    Ghost(e): Ghost<nat>,
) -> (out: (Vec<Hash32>, Hash32))
    requires
        e < c.epochs(),
        arity == c.arity(e),
        codeword@ == folded_codeword(ntt, cw, c, ch, 6 * e),
        codeword@.len() == pow2((c.k_code() - 6 * e) as nat),
        2 * pow2(c.k_code()) <= usize::MAX,
    ensures
        is_tree(out.0@, epoch_leaf_hashes(ntt, cw, c, ch, e), c.epoch_log(e)),
        out.1@ == epoch_root(ntt, cw, c, ch, e),
{
    proof {
        lemma_epoch(c, e);
        crate::zerocheck::multilinear::lemma_small_powers(c.arity(e));
        lemma_log2(c.epoch_log(e));
        lemma2_to64();
    }
    let leaf_f128: usize = pow2_usize(arity);
    let len: usize = codeword.len();
    proof {
        let (x, y) = (pow2(c.epoch_log(e)) as int, pow2(c.arity(e)) as int);
        vstd::arithmetic::div_mod::lemma_fundamental_div_mod_converse(x * y, y, x, 0);
    }
    let n_leaves: usize = len / leaf_f128;
    let tree = merkle_tree(codeword, n_leaves);
    let last: usize = tree.len() - 1;
    proof {
        lemma_root_is_last(
            tree@,
            leaf_hashes(codeword@, n_leaves as nat),
            c.epoch_log(e),
        );
    }
    let root = tree[last];
    (tree, root)
}

/// The values that a query at `position` opens.
fn open_query(
    position: usize,
    initial_codeword: &[F128],
    words: &Vec<Vec<F128>>,
    arities: &Vec<usize>,
    num_ntts: usize,
    Ghost(trees): Ghost<Seq<Vec<Hash32>>>,
    Ghost(ntt): Ghost<&AdditiveNttF128>,
    Ghost(c): Ghost<Code>,
    Ghost(ch): Ghost<Seq<F128>>,
) -> (q: QueryOpening)
    requires
        position < pow2(c.k_code()),
        2 * pow2(c.k_code()) <= usize::MAX,
        num_ntts == c.lanes(),
        initial_codeword@.len() == pow2(c.k_code()) * c.lanes(),
        arities@.len() == c.epochs(),
        forall|e: int| 0 <= e < arities@.len() ==> #[trigger] arities@[e] == c.arity(e as nat),
        words@.len() == c.epochs(),
        epochs_done(words@, trees, ntt, initial_codeword@, c, ch),
        c.rounds() <= ch.len(),
    ensures
        opens(q, ntt, initial_codeword@, c, ch, position),
{
    let ghost cw = initial_codeword@;
    let total: usize = initial_codeword.len();
    proof {
        assert(0 <= position * num_ntts && position * num_ntts + num_ntts <= pow2(c.k_code())
            * num_ntts) by (nonlinear_arith)
            requires
                0 <= position,
                position + 1 <= pow2(c.k_code()),
                0 <= num_ntts,
        ;
        lemma_pow2_unfold(c.k_code() + 1);
        lemma_pow2_fits(c.k_code() + 1);
    }
    let start: usize = position * num_ntts;
    let initial_leaf = vstd::slice::slice_to_vec(
        slice_subrange(initial_codeword, start, start + num_ntts),
    );
    let n: usize = arities.len();
    let mut post_row_batch_leaf: Vec<F128> = Vec::new();
    let mut epoch_leaves: Vec<Vec<F128>> = Vec::new();
    let mut e: usize = 0;
    let mut cum_arity: usize = 0;
    while e < n
        invariant
            e <= n,
            n == arities@.len(),
            n == c.epochs(),
            position < pow2(c.k_code()),
            2 * pow2(c.k_code()) <= usize::MAX,
            c.k_code() < usize::BITS,
            forall|e: int| 0 <= e < arities@.len() ==> #[trigger] arities@[e] == c.arity(e as nat),
            words@.len() == n,
            cw.len() == pow2(c.k_code()) * c.lanes(),
            epochs_done(words@, trees, ntt, cw, c, ch),
            c.rounds() <= ch.len(),
            e < n ==> cum_arity == 6 * e,
            e == 0 ==> post_row_batch_leaf@.len() == 0,
            e > 0 ==> post_row_batch_leaf@ == epoch_leaf(ntt, cw, c, ch, 0, position as int),
            epoch_leaves@.len() == (if e == 0 {
                0
            } else {
                e - 1
            }),
            forall|i: int|
                0 <= i < epoch_leaves@.len() ==> (#[trigger] epoch_leaves@[i])@ == epoch_leaf(
                    ntt,
                    cw,
                    c,
                    ch,
                    (i + 1) as nat,
                    position as int,
                ),
        decreases n - e,
    {
        proof {
            lemma_epoch(c, e as nat);
            lemma_epoch_index(c, e as nat, position as int);
            crate::zerocheck::multilinear::lemma_small_powers(c.arity(e as nat));
            lemma_folded_len(ntt, cw, c, ch, (6 * e) as nat);
            lemma2_to64();
        }
        let arity: usize = arities[e];
        let leaf_f128: usize = pow2_usize(arity);
        let leaf_idx: usize = shifted_right(position, cum_arity + arity);
        let word = &words[e];
        let word_len: usize = word.len();
        assert(word_len == pow2((c.k_code() - 6 * e) as nat));
        let at: usize = leaf_idx * leaf_f128;
        let leaf = vstd::slice::slice_to_vec(slice_subrange(word, at, at + leaf_f128));
        assert(leaf@ == epoch_leaf(ntt, cw, c, ch, e as nat, position as int));
        if e == 0 {
            post_row_batch_leaf = leaf;
        } else {
            epoch_leaves.push(leaf);
        }
        cum_arity = cum_arity + arity;
        e = e + 1;
    }
    assert(n == 0 ==> post_row_batch_leaf@ =~= Seq::<F128>::empty());
    QueryOpening { position, initial_leaf, post_row_batch_leaf, epoch_leaves }
}

/// The multi-proof of an epoch's tree for the queried positions.
fn epoch_proof(
    tree: &Vec<Hash32>,
    positions: &Vec<usize>,
    cum: usize,
    n_leaves: usize,
    Ghost(leaves): Ghost<Seq<Seq<u8>>>,
    Ghost(c): Ghost<Code>,
    Ghost(e): Ghost<nat>,
) -> (out: Vec<Hash32>)
    requires
        e < c.epochs(),
        cum == 6 * e + c.arity(e),
        n_leaves == pow2(c.epoch_log(e)),
        is_tree(tree@, leaves, c.epoch_log(e)),
        2 * pow2(c.k_code()) <= usize::MAX,
        forall|i: int| 0 <= i < positions@.len() ==> #[trigger] positions@[i] < pow2(c.k_code()),
    ensures
        hash_views(out@) == multi_proof_of(
            leaves,
            c.epoch_log(e),
            0,
            sorted_positions(epoch_indices(c, e, positions@)),
        ),
{
    proof {
        lemma_epoch(c, e);
        lemma_log2(c.epoch_log(e));
        lemma_pow2_unfold(c.epoch_log(e) + 1);
        lemma_pow2_unfold(c.k_code() + 1);
        lemma_pow2_fits(c.k_code() + 1);
    }
    let n: usize = positions.len();
    let mut indices: Vec<usize> = Vec::with_capacity(n);
    let mut i: usize = 0;
    while i < n
        invariant
            i <= n,
            n == positions@.len(),
            e < c.epochs(),
            cum == 6 * e + c.arity(e),
            c.k_code() < usize::BITS,
            forall|i: int|
                0 <= i < positions@.len() ==> #[trigger] positions@[i] < pow2(c.k_code()),
            indices@.len() == i,
            forall|q: int|
                0 <= q < i ==> #[trigger] indices@[q] == epoch_index(c, e, positions@[q] as int),
            forall|q: int| 0 <= q < i ==> #[trigger] indices@[q] < pow2(c.epoch_log(e)),
        decreases n - i,
    {
        proof {
            lemma_epoch(c, e);
            assert(positions@[i as int] < pow2(c.k_code()));
            lemma_epoch_index(c, e, positions@[i as int] as int);
        }
        indices.push(shifted_right(positions[i], cum));
        i = i + 1;
    }
    proof {
        assert(indices@ =~= epoch_indices(c, e, positions@));
        lemma_multi_proof_of_tree(tree@, leaves, c.epoch_log(e), 0, sorted_positions(indices@));
    }
    merkle_multi_proof(tree, n_leaves, &indices)
}

pub fn prove<Ch: Challenger>(
    a_init: &[F128],
    b: Vec<F128>,
    initial_codeword: &[F128],
    initial_tree: &Vec<Hash32>,
    ntt: &AdditiveNttF128,
    log_inv_rate: usize,
    log_batch_size: usize,
    n_queries: usize,
    challenger: &mut Ch,
) -> (out: BaseFoldProof)
    requires
        power_of_two(a_init@.len()),
        log_batch_size <= log2(a_init@.len()),
        prover_inputs_fit(
            a_init@,
            b@,
            initial_codeword@,
            initial_tree@,
            ntt,
            code_of(log2(a_init@.len()) as int, log_inv_rate as int, log_batch_size as int),
        ),
    ensures
        honest_run::<Ch>(
            old(challenger).state(),
            final(challenger).state(),
            out,
            ntt,
            initial_codeword@,
            initial_tree@,
            code_of(log2(a_init@.len()) as int, log_inv_rate as int, log_batch_size as int),
            a_init@,
            b@,
            None,
            n_queries as nat,
        ),
{
    prove_with_precomputed_round0_prime(
        a_init,
        b,
        initial_codeword,
        initial_tree,
        ntt,
        log_inv_rate,
        log_batch_size,
        n_queries,
        None,
        challenger,
    )
}

/// Variant of [`prove`] that accepts an optional pre-computed round-0
/// sumcheck message `(u_0, u_2)`. When `Some`, basefold skips its own
/// round-0 prime computation — the caller fused it with the construction of
/// the combined table.
#[verifier::rlimit(80)]
#[verifier::spinoff_prover]
pub fn prove_with_precomputed_round0_prime<Ch: Challenger>(
    a_init: &[F128],
    b: Vec<F128>,
    initial_codeword: &[F128],
    initial_tree: &Vec<Hash32>,
    ntt: &AdditiveNttF128,
    log_inv_rate: usize,
    log_batch_size: usize,
    n_queries: usize,
    precomputed_round0_prime: Option<(F128, F128)>,
    challenger: &mut Ch,
) -> (out: BaseFoldProof)
    requires
        power_of_two(a_init@.len()),
        log_batch_size <= log2(a_init@.len()),
        prover_inputs_fit(
            a_init@,
            b@,
            initial_codeword@,
            initial_tree@,
            ntt,
            code_of(log2(a_init@.len()) as int, log_inv_rate as int, log_batch_size as int),
        ),
    ensures
        honest_run::<Ch>(
            old(challenger).state(),
            final(challenger).state(),
            out,
            ntt,
            initial_codeword@,
            initial_tree@,
            code_of(log2(a_init@.len()) as int, log_inv_rate as int, log_batch_size as int),
            a_init@,
            b@,
            precomputed_round0_prime,
            n_queries as nat,
        ),
{
    let log_msg_len: usize = log2_pow2(a_init.len());
    let ghost c = code_of(log_msg_len as int, log_inv_rate as int, log_batch_size as int);
    let ghost cw = initial_codeword@;
    let ghost prime = precomputed_round0_prime;
    let ghost b0 = b@;
    let ghost start = Ch::after_label(challenger.state(), basefold_label());
    let log_dim: usize = log_msg_len - log_batch_size;
    proof {
        lemma_log2(log_msg_len as nat);
        lemma_pow2_unfold(c.k_code() + 1);
        lemma_pow2_fits(c.k_code() + 1);
        lemma_pow2_pos(c.k_code());
        let (x, y) = (pow2(c.k_code()) as int, c.lanes() as int);
        lemma_pow2_pos(c.log_batch);
        assert(y <= x * y) by (nonlinear_arith)
            requires
                x >= 1,
                y >= 1,
        ;
        lemma_pow2_fits(c.log_batch);
        vstd::arithmetic::div_mod::lemma_fundamental_div_mod_converse(x * y, y, x, 0);
    }
    let k_code: usize = log_dim + log_inv_rate;
    let num_ntts: usize = pow2_usize(log_batch_size);
    let label: [u8; 17] = [
        0x66, 0x6c, 0x6f, 0x63, 0x6b, 0x2d, 0x62, 0x61, 0x73, 0x65, 0x66, 0x6f, 0x6c, 0x64, 0x2d,
        0x76, 0x30,
    ];
    assert(label@ =~= basefold_label());
    challenger.observe_label(&label);
    let arities = compute_fri_arities(log_dim);
    let num_epochs: usize = arities.len();
    let mut round_messages: Vec<RoundMessage> = Vec::with_capacity(log_msg_len);
    let mut challenges: Vec<F128> = Vec::with_capacity(log_msg_len);
    // The codewords, trees and roots of the epochs; the first is the
    // post-row-batch commitment.
    let mut words: Vec<Vec<F128>> = Vec::with_capacity(num_epochs);
    let mut trees: Vec<Vec<Hash32>> = Vec::with_capacity(num_epochs);
    let mut roots: Vec<Hash32> = Vec::with_capacity(num_epochs);
    let mut a_active: Vec<F128> = vstd::slice::slice_to_vec(a_init);
    let mut b_active: Vec<F128> = b;
    let mut codeword: Vec<F128> = Vec::new();
    let mut current_epoch: usize = 0;
    let mut rounds_in_epoch: usize = 0;
    // Prime round 0's message from the unfolded inputs. Every later round's
    // message is produced fused with that round's fold.
    let (mut cur_u0, mut cur_u2) = match precomputed_round0_prime {
        Some((u_0, u_2)) => (u_0, u_2),
        None => round_prime(a_init, &b_active),
    };
    let mut round: usize = 0;
    while round < log_msg_len
        invariant
            round <= log_msg_len,
            log_msg_len == c.rounds(),
            log_msg_len < usize::BITS,
            log_batch_size == c.log_batch,
            1 <= log_batch_size < 64,
            log_dim == c.log_dim,
            log_dim == log_msg_len - log_batch_size,
            k_code == c.k_code(),
            k_code < usize::BITS,
            num_epochs == c.epochs(),
            arities@.len() == num_epochs,
            forall|e: int| 0 <= e < arities@.len() ==> #[trigger] arities@[e] == c.arity(e as nat),
            cw == initial_codeword@,
            cw.len() == pow2(c.k_code()) * c.lanes(),
            cw.len() % c.lanes() == 0,
            c.lanes() <= usize::MAX,
            2 * pow2(c.k_code()) <= usize::MAX,
            ntt.wf(),
            c.k_code() <= ntt.dim(),
            a_init@.len() == pow2(c.rounds()),
            b0.len() == pow2(c.rounds()),
            a_active@.len() == pow2((log_msg_len - round) as nat),
            b_active@.len() == pow2((log_msg_len - round) as nat),
            challenges@.len() == round,
            round_messages@.len() == round,
            ({
                let p = fold_rounds::<Ch>(start, ntt, cw, c, a_init@, b0, prime, round as nat);
                &&& challenges@ == p.challenges
                &&& a_active@ == p.a
                &&& b_active@ == p.b
                &&& challenger.state() == p.state
                &&& round < log_msg_len ==> (cur_u0, cur_u2) == next_message(
                    p.a,
                    p.b,
                    round as nat,
                    prime,
                )
                &&& forall|i: int|
                    0 <= i < round ==> (#[trigger] round_messages@[i]).u_0 == p.messages[i].0
                        && round_messages@[i].u_2 == p.messages[i].1
            }),
            round < log_batch_size ==> words@.len() == 0 && trees@.len() == 0 && roots@.len() == 0
                && current_epoch == 0 && rounds_in_epoch == 0,
            round >= log_batch_size ==> {
                let f = round - log_batch_size;
                &&& codeword@ == folded_codeword(ntt, cw, c, challenges@, f as nat)
                &&& f < log_dim ==> current_epoch == f / 6 && rounds_in_epoch == f % 6
                    && words@.len() == f / 6 + 1
                &&& f == log_dim ==> words@.len() == c.epochs()
            },
            epochs_done(words@, trees@, ntt, cw, c, challenges@),
            roots@.len() == words@.len(),
            forall|e: int|
                0 <= e < roots@.len() ==> (#[trigger] roots@[e])@ == epoch_root(
                    ntt,
                    cw,
                    c,
                    challenges@,
                    e as nat,
                ),
        decreases log_msg_len - round,
    {
        let ghost p = fold_rounds::<Ch>(start, ntt, cw, c, a_init@, b0, prime, round as nat);
        let ghost next = fold_rounds::<Ch>(
            start,
            ntt,
            cw,
            c,
            a_init@,
            b0,
            prime,
            (round + 1) as nat,
        );
        let ghost ch0 = challenges@;
        proof {
            lemma_rounds_shape::<Ch>(start, ntt, cw, c, a_init@, b0, prime, round as nat);
            lemma_pow2_unfold((log_msg_len - round) as nat);
            if round + 1 < log_msg_len {
                lemma_pow2_unfold((log_msg_len - round - 1) as nat);
            } else {
                lemma2_to64();
            }
        }
        challenger.observe_f128(cur_u0);
        challenger.observe_f128(cur_u2);
        round_messages.push(RoundMessage { u_0: cur_u0, u_2: cur_u2 });
        let r = challenger.sample_f128();
        challenges.push(r);
        let (a_next, b_next, n0, n2) = fold_and_message(&a_active, &b_active, r);
        a_active = a_next;
        b_active = b_next;
        cur_u0 = n0;
        cur_u2 = n2;
        proof {
            assert(challenges@.take(ch0.len() as int) =~= ch0);
            lemma_epochs_done_later(words@, trees@, ntt, cw, c, ch0, challenges@);
            assert forall|e: int| 0 <= e < roots@.len() implies (#[trigger] roots@[e])@ == epoch_root(
                ntt,
                cw,
                c,
                challenges@,
                e as nat,
            ) by {
                assert(words@[e]@ == folded_codeword(ntt, cw, c, ch0, (6 * e) as nat));
                lemma_folded_prefix(ntt, cw, c, ch0, challenges@, (6 * e) as nat);
            }
            assert(next.challenges == challenges@);
        }
        // Codeword fold.
        let mut commits = false;
        if round < log_batch_size {
            // The codeword is folded once — all lanes at a time — after the
            // final row-batch round.
            if round + 1 == log_batch_size {
                codeword = row_batch_fold_all(initial_codeword, &challenges);
                proof {
                    assert(challenges@.take(log_batch_size as int) =~= challenges@);
                    assert(challenges@.subrange(log_batch_size as int, log_batch_size as int)
                        =~= Seq::<F128>::empty());
                }
                commits = num_epochs > 0;
            }
        } else {
            let ghost f = (round - log_batch_size) as nat;
            let layer: usize = k_code - (round - log_batch_size) - 1;
            proof {
                lemma_folded_prefix(ntt, cw, c, ch0, challenges@, f);
                lemma_folded_step(ntt, cw, c, challenges@, f);
            }
            codeword = fri_fold_codeword(&codeword, ntt, layer, r);
            rounds_in_epoch = rounds_in_epoch + 1;
            proof {
                lemma_epoch(c, f / 6);
            }
            if rounds_in_epoch == arities[current_epoch] {
                commits = current_epoch + 1 != num_epochs;
                rounds_in_epoch = 0;
                current_epoch = current_epoch + 1;
            }
        }
        proof {
            assert(commits == c.commits_at((round + 1) as nat));
        }
        if commits {
            let ghost e = current_epoch as nat;
            proof {
                lemma_epoch(c, e);
                lemma_folded_len(ntt, cw, c, challenges@, 6 * e);
            }
            let (tree, root) = commit_epoch(
                &codeword,
                arities[current_epoch],
                Ghost(ntt),
                Ghost(cw),
                Ghost(c),
                Ghost(challenges@),
                Ghost(e),
            );
            challenger.observe_f128(root_to_f128(&root));
            words.push(vstd::slice::slice_to_vec(&codeword));
            trees.push(tree);
            roots.push(root);
        }
        round = round + 1;
    }
    let ghost p = fold_rounds::<Ch>(start, ntt, cw, c, a_init@, b0, prime, c.rounds());
    proof {
        lemma2_to64();
    }
    let final_a = a_active[0];
    let final_b = b_active[0];
    // Sample query positions and open them.
    let n_positions: usize = pow2_usize(k_code);
    let mut queries: Vec<QueryOpening> = Vec::with_capacity(n_queries);
    let mut positions: Vec<usize> = Vec::with_capacity(n_queries);
    let mut i: usize = 0;
    while i < n_queries
        invariant
            i <= n_queries,
            n_positions == pow2(c.k_code()),
            n_positions >= 1,
            num_ntts == c.lanes(),
            2 * pow2(c.k_code()) <= usize::MAX,
            cw == initial_codeword@,
            cw.len() == pow2(c.k_code()) * c.lanes(),
            arities@.len() == c.epochs(),
            forall|e: int| 0 <= e < arities@.len() ==> #[trigger] arities@[e] == c.arity(e as nat),
            words@.len() == c.epochs(),
            epochs_done(words@, trees@, ntt, cw, c, p.challenges),
            c.rounds() <= p.challenges.len(),
            challenger.state() == state_after_samples::<Ch>(p.state, i as nat),
            positions@.len() == i,
            queries@.len() == i,
            forall|q: int|
                0 <= q < i ==> #[trigger] positions@[q] == query_position::<Ch>(
                    p.state,
                    c.k_code(),
                    q as nat,
                ),
            forall|q: int| 0 <= q < i ==> #[trigger] positions@[q] < pow2(c.k_code()),
            forall|q: int|
                0 <= q < i ==> opens(
                    #[trigger] queries@[q],
                    ntt,
                    cw,
                    c,
                    p.challenges,
                    positions@[q],
                ),
        decreases n_queries - i,
    {
        let raw = challenger.sample_f128();
        let position: usize = (raw.lo % (n_positions as u64)) as usize;
        proof {
            vstd::arithmetic::div_mod::lemma_mod_bound(raw.lo as int, n_positions as int);
        }
        let q = open_query(
            position,
            initial_codeword,
            &words,
            &arities,
            num_ntts,
            Ghost(trees@),
            Ghost(ntt),
            Ghost(c),
            Ghost(p.challenges),
        );
        positions.push(position);
        queries.push(q);
        i = i + 1;
    }
    proof {
        assert(positions@ =~= query_positions::<Ch>(p.state, c.k_code(), n_queries as nat));
        lemma_log2(c.k_code());
    }
    // One multi-proof per tree, shared across all queries.
    let initial_multi_proof = merkle_multi_proof(initial_tree, n_positions, &positions);
    let mut post_row_batch_multi_proof: Vec<Hash32> = Vec::new();
    let mut epoch_multi_proofs: Vec<Vec<Hash32>> = Vec::new();
    let mut round_commitments: Vec<RoundCommitment> = Vec::new();
    let mut post_row_batch_root: Hash32 = [0u8; 32];
    let mut e: usize = 0;
    let mut cum: usize = 0;
    proof {
        assert(post_row_batch_root@ =~= Seq::new(32, |i: int| 0u8));
        assert(hash_views(post_row_batch_multi_proof@) =~= Seq::<Seq<u8>>::empty());
    }
    while e < num_epochs
        invariant
            e <= num_epochs,
            num_epochs == c.epochs(),
            arities@.len() == num_epochs,
            forall|e: int| 0 <= e < arities@.len() ==> #[trigger] arities@[e] == c.arity(e as nat),
            k_code == c.k_code(),
            k_code < usize::BITS,
            2 * pow2(c.k_code()) <= usize::MAX,
            e < num_epochs ==> cum == 6 * e,
            words@.len() == num_epochs,
            roots@.len() == num_epochs,
            epochs_done(words@, trees@, ntt, cw, c, p.challenges),
            forall|e: int|
                0 <= e < roots@.len() ==> (#[trigger] roots@[e])@ == epoch_root(
                    ntt,
                    cw,
                    c,
                    p.challenges,
                    e as nat,
                ),
            forall|i: int| 0 <= i < positions@.len() ==> #[trigger] positions@[i] < pow2(c.k_code()),
            e == 0 ==> post_row_batch_root@ == Seq::new(32, |i: int| 0u8) && hash_views(
                post_row_batch_multi_proof@,
            ) == Seq::<Seq<u8>>::empty(),
            e > 0 ==> post_row_batch_root@ == epoch_root(ntt, cw, c, p.challenges, 0) && hash_views(
                post_row_batch_multi_proof@,
            ) == multi_proof_of(
                epoch_leaf_hashes(ntt, cw, c, p.challenges, 0),
                c.epoch_log(0),
                0,
                sorted_positions(epoch_indices(c, 0, positions@)),
            ),
            round_commitments@.len() == (if e == 0 {
                0
            } else {
                e - 1
            }),
            epoch_multi_proofs@.len() == round_commitments@.len(),
            forall|i: int|
                0 <= i < round_commitments@.len() ==> (#[trigger] round_commitments@[i]).root@
                    == epoch_root(ntt, cw, c, p.challenges, (i + 1) as nat),
            forall|i: int|
                0 <= i < epoch_multi_proofs@.len() ==> hash_views(
                    (#[trigger] epoch_multi_proofs@[i])@,
                ) == multi_proof_of(
                    epoch_leaf_hashes(ntt, cw, c, p.challenges, (i + 1) as nat),
                    c.epoch_log((i + 1) as nat),
                    0,
                    sorted_positions(epoch_indices(c, (i + 1) as nat, positions@)),
                ),
        decreases num_epochs - e,
    {
        proof {
            lemma_epoch(c, e as nat);
            lemma2_to64();
        }
        cum = cum + arities[e];
        let n_leaves: usize = pow2_usize(k_code - cum);
        assert(is_tree(
            trees@[e as int]@,
            epoch_leaf_hashes(ntt, cw, c, p.challenges, e as nat),
            c.epoch_log(e as nat),
        ));
        let part = epoch_proof(
            &trees[e],
            &positions,
            cum,
            n_leaves,
            Ghost(epoch_leaf_hashes(ntt, cw, c, p.challenges, e as nat)),
            Ghost(c),
            Ghost(e as nat),
        );
        if e == 0 {
            post_row_batch_multi_proof = part;
            post_row_batch_root = roots[0];
        } else {
            epoch_multi_proofs.push(part);
            round_commitments.push(RoundCommitment { root: roots[e] });
        }
        e = e + 1;
    }
    BaseFoldProof {
        round_messages,
        post_row_batch_commit: RoundCommitment { root: post_row_batch_root },
        round_commitments,
        final_a,
        final_b,
        final_codeword: codeword,
        queries,
        initial_multi_proof,
        post_row_batch_multi_proof,
        epoch_multi_proofs,
    }
}

} // verus!
