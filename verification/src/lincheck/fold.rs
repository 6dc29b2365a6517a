//! Folds of the witness and of the base matrices against weight tables.
use vstd::arithmetic::power2::{lemma2_to64, lemma_pow2_pos, lemma_pow2_unfold, pow2};
use vstd::prelude::*;
use crate::algebra::{lemma_sum_ext, lemma_sum_scale, lemma_sum_split, sum};
use crate::bits::{bit8, lemma_bit8_ops};
use crate::field::gf2_128::{
    lemma_add_rules, lemma_add_zero, lemma_mul_associates, lemma_mul_distributes, lemma_mul_units,
};
use crate::field::F128;
use crate::index::{index_bit, lemma_high_bit, pow2_usize};
use crate::pcs::pack::{lemma_packed_len, packed_bit};
use crate::r1cs::laws::{bit_value, lemma_bit_value_xor};
use crate::r1cs::packed::get_bit_packed;
use crate::r1cs::{lemma_block_position, lemma_blocks, parity, SparseBinaryMatrix};
use crate::zerocheck::multilinear::{
    build_eq_table, dot, eq_table, eq_weight, lagrange_table, lagrange_weight,
    lagrange_weights_naive,
};

verus! {

// ---------------------------------------------------------------------------
// Matrices
// ---------------------------------------------------------------------------

/// `Σ_r weights[r] · M[r, c]`.
pub open spec fn column_fold(m: SparseBinaryMatrix, weights: Seq<F128>, c: int) -> F128 {
    sum(m.num_rows as nat, |r: int| weights[r] * bit_value(m.entry(r, c)))
}

/// Add `weights[r]` to the columns of row `r`, for every row.
fn scatter_rows(matrix: &SparseBinaryMatrix, weights: &[F128], out: &mut Vec<F128>)
    requires
        matrix.wf(),
        weights@.len() == matrix.num_rows,
        old(out)@.len() == matrix.num_cols,
    ensures
        final(out)@.len() == matrix.num_cols,
        forall|c: int|
            0 <= c < matrix.num_cols ==> #[trigger] final(out)@[c] == old(out)@[c] + column_fold(
                *matrix,
                weights@,
                c,
            ),
{
    let ghost start = out@;
    let n: usize = matrix.rows.len();
    let mut r: usize = 0;
    proof {
        assert forall|c: int| 0 <= c < matrix.num_cols implies #[trigger] out@[c] == start[c] + sum(
            0,
            |q: int| weights@[q] * bit_value(matrix.entry(q, c)),
        ) by {
            lemma_add_zero(start[c]);
        }
    }
    while r < n
        invariant
            r <= n,
            n == matrix.rows@.len(),
            matrix.wf(),
            weights@.len() == matrix.num_rows,
            start.len() == matrix.num_cols,
            out@.len() == matrix.num_cols,
            forall|c: int|
                0 <= c < matrix.num_cols ==> #[trigger] out@[c] == start[c] + sum(
                    r as nat,
                    |q: int| weights@[q] * bit_value(matrix.entry(q, c)),
                ),
        decreases n - r,
    {
        let e = weights[r];
        let row = &matrix.rows[r];
        let len: usize = row.len();
        let ghost before = out@;
        let mut j: usize = 0;
        proof {
            assert forall|c: int| 0 <= c < matrix.num_cols implies #[trigger] out@[c] == before[c] + e
                * bit_value(parity(0, |i: int| row@[i] == c)) by {
                lemma_mul_units(e);
                lemma_add_zero(before[c]);
            }
        }
        while j < len
            invariant
                j <= len,
                r < n,
                n == matrix.rows@.len(),
                matrix.wf(),
                row == matrix.rows@[r as int],
                len == row@.len(),
                before.len() == matrix.num_cols,
                out@.len() == matrix.num_cols,
                forall|c: int|
                    0 <= c < matrix.num_cols ==> #[trigger] out@[c] == before[c] + e * bit_value(
                        parity(j as nat, |i: int| row@[i] == c),
                    ),
            decreases len - j,
        {
            assert(matrix.rows@[r as int]@[j as int] < matrix.num_cols);
            let col: usize = row[j];
            let ghost prev = out@;
            out[col] = out[col] + e;
            proof {
                assert forall|c: int| 0 <= c < matrix.num_cols implies #[trigger] out@[c] == before[c]
                    + e * bit_value(parity((j + 1) as nat, |i: int| row@[i] == c)) by {
                    let h = |i: int| row@[i] == c;
                    let p = parity(j as nat, h);
                    assert(parity((j + 1) as nat, h) == (p != h(j as int)));
                    assert(prev[c] == before[c] + e * bit_value(p));
                    lemma_bit_value_xor(p, h(j as int));
                    lemma_mul_distributes(e, bit_value(p), bit_value(h(j as int)));
                    lemma_mul_units(e);
                    lemma_add_rules(before[c], e * bit_value(p), e, e);
                    lemma_add_zero(e * bit_value(p));
                }
            }
            j = j + 1;
        }
        proof {
            assert forall|c: int| 0 <= c < matrix.num_cols implies #[trigger] out@[c] == start[c]
                + sum(
                (r + 1) as nat,
                |q: int| weights@[q] * bit_value(matrix.entry(q, c)),
            ) by {
                let f = |q: int| weights@[q] * bit_value(matrix.entry(q, c));
                assert(sum((r + 1) as nat, f) == sum(r as nat, f) + f(r as int));
                assert(before[c] == start[c] + sum(r as nat, f));
                lemma_add_rules(start[c], sum(r as nat, f), f(r as int), f(r as int));
                assert(parity(len as nat, |i: int| row@[i] == c) == matrix.entry(r as int, c)) by {
                    crate::r1cs::lemma_parity_ext(
                        len as nat,
                        |i: int| row@[i] == c,
                        |i: int| matrix.rows@[r as int]@[i] == c,
                    );
                }
            }
        }
        r = r + 1;
    }
}

/// Fold a sparse boolean matrix's rows against an eq table at the row
/// coords. Computes the **transposed** matrix-vector product:
///
///   `output[col] = Σ_{row: M[row, col] = 1} eq_table[row]`
///
/// This is the row-MLE `M̂_0(x_inner, ·)` evaluated at all boolean column
/// indices — the length-`k` vector the verifier needs for the consistency
/// check. Cost: `nnz(M)` additions.
pub fn sparse_row_fold(matrix: &SparseBinaryMatrix, eq_table: &[F128]) -> (out: Vec<F128>)
    requires
        matrix.wf(),
        eq_table@.len() == matrix.num_rows,
    ensures
        out@ == Seq::new(
            matrix.num_cols as nat,
            |c: int| column_fold(*matrix, eq_table@, c),
        ),
{
    let mut out: Vec<F128> = vec![F128::zero(); matrix.num_cols];
    scatter_rows(matrix, eq_table, &mut out);
    proof {
        assert forall|c: int| 0 <= c < matrix.num_cols implies out@[c] == column_fold(
            *matrix,
            eq_table@,
            c,
        ) by {
            lemma_add_rules(column_fold(*matrix, eq_table@, c), F128::zero(), F128::zero(), F128::zero());
            assert(out@[c] == F128::zero() + column_fold(*matrix, eq_table@, c));
        }
        assert(out@ =~= Seq::new(
            matrix.num_cols as nat,
            |c: int| column_fold(*matrix, eq_table@, c),
        ));
    }
    out
}

/// Fused `sparse_row_fold(A) + α-batch + sparse_row_fold(B)`: produces the
/// `comb_vec[c] = α · (A^T·eq)[c] + (B^T·eq)[c]` in a single accumulator. Both
/// matrices must be `k × k` and `eq_table.len() == k`.
pub(crate) fn sparse_row_fold_alpha_batched(
    alpha: F128,
    a_0: &SparseBinaryMatrix,
    b_0: &SparseBinaryMatrix,
    eq_table: &[F128],
) -> (out: Vec<F128>)
    requires
        a_0.wf(),
        b_0.wf(),
        a_0.num_cols == b_0.num_cols,
        eq_table@.len() == a_0.num_rows,
        eq_table@.len() == b_0.num_rows,
    ensures
        out@ == Seq::new(
            a_0.num_cols as nat,
            |c: int| alpha * column_fold(*a_0, eq_table@, c) + column_fold(*b_0, eq_table@, c),
        ),
{
    let n: usize = eq_table.len();
    let mut scaled: Vec<F128> = Vec::with_capacity(n);
    let mut i: usize = 0;
    while i < n
        invariant
            i <= n,
            n == eq_table@.len(),
            scaled@.len() == i,
            forall|q: int| 0 <= q < i ==> #[trigger] scaled@[q] == alpha * eq_table@[q],
        decreases n - i,
    {
        scaled.push(alpha * eq_table[i]);
        i = i + 1;
    }
    let mut out: Vec<F128> = vec![F128::zero(); a_0.num_cols];
    scatter_rows(a_0, &scaled, &mut out);
    let ghost half = out@;
    scatter_rows(b_0, eq_table, &mut out);
    proof {
        assert forall|c: int| 0 <= c < a_0.num_cols implies out@[c] == alpha * column_fold(
            *a_0,
            eq_table@,
            c,
        ) + column_fold(*b_0, eq_table@, c) by {
            let f = |r: int| eq_table@[r] * bit_value(a_0.entry(r, c));
            let g = |r: int| scaled@[r] * bit_value(a_0.entry(r, c));
            assert forall|r: int| 0 <= r < n implies #[trigger] g(r) == alpha * f(r) by {
                lemma_mul_associates(alpha, eq_table@[r], bit_value(a_0.entry(r, c)));
            }
            lemma_sum_ext(n as nat, g, |r: int| alpha * f(r));
            lemma_sum_scale(n as nat, alpha, f);
            lemma_add_rules(sum(n as nat, g), F128::zero(), F128::zero(), F128::zero());
            assert(half[c] == F128::zero() + column_fold(*a_0, scaled@, c));
        }
        assert(out@ =~= Seq::new(
            a_0.num_cols as nat,
            |c: int| alpha * column_fold(*a_0, eq_table@, c) + column_fold(*b_0, eq_table@, c),
        ));
    }
    out
}

// ---------------------------------------------------------------------------
// The witness in stripes
// ---------------------------------------------------------------------------

/// Bit `(i_inner, i_outer)` of a witness in stripes of `k` bytes.
pub open spec fn stripe_bit(z: Seq<u8>, k: int, i_inner: int, i_outer: int) -> bool {
    bit8(z[(i_outer / 8) * k + i_inner], i_outer % 8)
}

/// One term of the fold of row `i_inner`.
pub open spec fn fold_term(z: Seq<u8>, k: int, weights: Seq<F128>, i_inner: int) -> spec_fn(
    int,
) -> F128 {
    |o: int| weights[o] * bit_value(stripe_bit(z, k, i_inner, o))
}

/// `Σ_{i_outer < n} z[i_inner, i_outer] · weights[i_outer]`.
pub open spec fn row_fold(z: Seq<u8>, k: int, weights: Seq<F128>, n: nat, i_inner: int) -> F128 {
    sum(n, fold_term(z, k, weights, i_inner))
}

/// The fold of the first `useful` rows; zero for the others.
pub open spec fn outer_fold(z: Seq<u8>, k: int, weights: Seq<F128>, useful: int) -> Seq<F128> {
    Seq::new(
        k as nat,
        |i: int|
            if i < useful {
                row_fold(z, k, weights, weights.len(), i)
            } else {
                F128::zero()
            },
    )
}

/// The shape of a witness of `2^m` bits in stripes of `2^k_log` bytes.
pub open spec fn stripes_fit(z: Seq<u8>, m: int, k_log: int) -> bool {
    &&& 0 <= k_log
    &&& m >= k_log + 3
    &&& pow2(m as nat) <= usize::MAX
    &&& z.len() == pow2(m as nat) / 8
}

pub proof fn lemma_stripes(m: nat, k_log: nat)
    requires
        m >= k_log + 3,
    ensures
        pow2(m) == 8 * (pow2(m) / 8),
        pow2((m - k_log) as nat) == 8 * (pow2((m - k_log) as nat) / 8),
        pow2(m) / 8 == pow2(k_log) * (pow2((m - k_log) as nat) / 8),
        pow2((m - k_log) as nat) / 8 >= 1,
        pow2(k_log) >= 1,
        pow2(k_log) <= pow2(m),
        pow2((m - k_log) as nat) <= pow2(m),
{
    lemma2_to64();
    lemma_blocks(m, k_log);
    lemma_blocks((m - k_log) as nat, 3);
    lemma_blocks(m, 3);
    let (k, s) = (pow2(k_log) as int, (pow2((m - k_log) as nat) / 8) as int);
    assert(k * (8 * s) == 8 * (k * s)) by (nonlinear_arith);
}

/// A bit of a byte, as a bit of a number.
pub proof fn lemma_bit8_is_index_bit(b: u8, s: int)
    requires
        0 <= s < 8,
    ensures
        bit8(b, s) == index_bit(b as nat, s as nat),
{
    vstd::bits::lemma_u8_shr_is_div(b, s as u8);
    let q: u8 = b >> (s as u8);
    vstd::bits::lemma_u8_low_bits_mask_is_mod(q, 1);
    vstd::bits::lemma_low_bits_mask_values();
    lemma2_to64();
}

/// `Σ_{r < n: bit r of b is set} eq8[r]`.
pub open spec fn subset_sum(eq8: Seq<F128>, b: nat, n: nat) -> F128 {
    sum(n, |r: int| eq8[r] * bit_value(index_bit(b, r as nat)))
}

/// Build a 256-entry sum table over 8 F128 values:
///   `table[b] = Σ_{r: bit r of b is set}  eq8[r]`
///
/// Doubling construction: for each new bit position `i ∈ 0..8`, extend the
/// table by adding `eq8[i]` to each existing entry.
pub(crate) fn build_sum_table(weights: &[F128], at: usize, table: &mut Vec<F128>, to: usize)
    requires
        at + 8 <= weights@.len(),
        to + 256 <= old(table)@.len(),
    ensures
        final(table)@.len() == old(table)@.len(),
        forall|b: int|
            0 <= b < 256 ==> #[trigger] final(table)@[to + b] == subset_sum(
                weights@.subrange(at as int, at + 8),
                b as nat,
                8,
            ),
        forall|q: int|
            0 <= q < old(table)@.len() && !(to <= q < to + 256) ==> #[trigger] final(table)@[q]
                == old(table)@[q],
{
    let n_weights: usize = weights.len();
    let n_table: usize = table.len();
    let ghost eq8 = weights@.subrange(at as int, at + 8);
    let ghost start = table@;
    table[to] = F128::zero();
    proof {
        lemma2_to64();
        assert forall|b: int| 0 <= b < 1 implies #[trigger] table@[to + b] == subset_sum(
            eq8,
            b as nat,
            0,
        ) by {}
    }
    let mut i: usize = 0;
    while i < 8
        invariant
            i <= 8,
            n_weights == weights@.len(),
            at + 8 <= n_weights,
            n_table == table@.len(),
            start.len() == n_table,
            to + 256 <= n_table,
            eq8 == weights@.subrange(at as int, at + 8),
            forall|b: int|
                0 <= b < pow2(i as nat) ==> #[trigger] table@[to + b] == subset_sum(
                    eq8,
                    b as nat,
                    i as nat,
                ),
            forall|q: int|
                0 <= q < n_table && !(to <= q < to + 256) ==> #[trigger] table@[q] == start[q],
        decreases 8 - i,
    {
        proof {
            crate::zerocheck::multilinear::lemma_small_powers(i as nat);
            crate::zerocheck::multilinear::lemma_small_powers((i + 1) as nat);
            lemma_pow2_unfold((i + 1) as nat);
        }
        let e = weights[at + i];
        let len: usize = pow2_usize(i);
        let mut j: usize = 0;
        while j < len
            invariant
                j <= len,
                i < 8,
                len == pow2(i as nat),
                2 * len <= 256,
                n_table == table@.len(),
                start.len() == n_table,
                to + 256 <= n_table,
                eq8.len() == 8,
                e == eq8[i as int],
                forall|b: int|
                    0 <= b < len ==> #[trigger] table@[to + b] == subset_sum(
                        eq8,
                        b as nat,
                        i as nat,
                    ),
                forall|b: int|
                    len <= b < len + j ==> #[trigger] table@[to + b] == subset_sum(
                        eq8,
                        (b - len) as nat,
                        i as nat,
                    ) + e,
                forall|q: int|
                    0 <= q < n_table && !(to <= q < to + 256) ==> #[trigger] table@[q] == start[q],
            decreases len - j,
        {
            assert(table@[to + j] == subset_sum(eq8, j as nat, i as nat));
            table[to + len + j] = table[to + j] + e;
            j = j + 1;
        }
        proof {
            assert forall|b: int| 0 <= b < 2 * len implies #[trigger] table@[to + b] == subset_sum(
                eq8,
                b as nat,
                (i + 1) as nat,
            ) by {
                lemma_subset_step(eq8, i as nat, if b < len { b as nat } else { (b - len) as nat });
            }
        }
        i = i + 1;
    }
    proof {
        assert(pow2(8) == 256);
    }
}

proof fn lemma_subset_step(eq8: Seq<F128>, i: nat, b: nat)
    requires
        i < 8,
        eq8.len() == 8,
        b < pow2(i),
    ensures
        subset_sum(eq8, b, i + 1) == subset_sum(eq8, b, i),
        subset_sum(eq8, b + pow2(i), i + 1) == subset_sum(eq8, b, i) + eq8[i as int],
{
    let c = b + pow2(i);
    let f = |r: int| eq8[r] * bit_value(index_bit(b, r as nat));
    let g = |r: int| eq8[r] * bit_value(index_bit(c, r as nat));
    lemma_high_bit(b, i, i);
    assert forall|r: int| 0 <= r < i implies #[trigger] f(r) == g(r) by {
        lemma_high_bit(b, i, r as nat);
    }
    lemma_sum_ext(i, f, g);
    lemma_mul_units(eq8[i as int]);
    lemma_add_zero(sum(i, f));
    assert(sum(i + 1, f) == sum(i, f) + f(i as int));
    assert(sum(i + 1, g) == sum(i, g) + g(i as int));
}

/// One stripe more of the fold: the table entry of the row's byte.
pub proof fn lemma_fold_stripe(z: Seq<u8>, k: int, weights: Seq<F128>, stripe: int, i: int)
    requires
        0 <= i < k,
        0 <= stripe,
        8 * stripe + 8 <= weights.len(),
    ensures
        row_fold(z, k, weights, (8 * (stripe + 1)) as nat, i) == row_fold(
            z,
            k,
            weights,
            (8 * stripe) as nat,
            i,
        ) + subset_sum(
            weights.subrange(8 * stripe, 8 * stripe + 8),
            z[stripe * k + i] as nat,
            8,
        ),
{
    let f = fold_term(z, k, weights, i);
    let eq8 = weights.subrange(8 * stripe, 8 * stripe + 8);
    let b = z[stripe * k + i];
    lemma_sum_split((8 * stripe) as nat, 8, f);
    let g = |r: int| f(8 * stripe + r);
    let h = |r: int| eq8[r] * bit_value(index_bit(b as nat, r as nat));
    assert forall|r: int| 0 <= r < 8 implies #[trigger] g(r) == h(r) by {
        let o = 8 * stripe + r;
        assert(o / 8 == stripe && o % 8 == r);
        lemma_bit8_is_index_bit(b, r);
    }
    lemma_sum_ext(8, |r: int| f((8 * stripe) as nat + r), h);
}

/// Partial fold of `z` at the outer half of a claim point — single-matrix,
/// **scalar reference**. Uses the lincheck `z_packed` stripe layout
/// (see module docs).
///
///   `output[i_inner] = Σ_{i_outer ∈ {0,1}^n_log}  z[i_inner, i_outer] · eq_outer[i_outer]`
///
/// Equivalently, `output[i_inner] = ẑ(i_inner_as_F128, x_outer)` for boolean
/// `i_inner`.
pub fn partial_fold_packed_z(z_packed: &[u8], m: usize, k_log: usize, eq_outer: &[F128]) -> (out:
    Vec<F128>)
    requires
        stripes_fit(z_packed@, m as int, k_log as int),
        eq_outer@.len() == pow2((m - k_log) as nat),
    ensures
        out@ == outer_fold(z_packed@, pow2(k_log as nat) as int, eq_outer@, pow2(k_log as nat) as int),
{
    proof {
        lemma_stripes(m as nat, k_log as nat);
    }
    let k: usize = pow2_usize(k_log);
    let n_outer: usize = eq_outer.len();
    let n_stripes: usize = n_outer / 8;
    let mut out: Vec<F128> = vec![F128::zero(); k];
    let mut byte_idx: usize = 0;
    while byte_idx < n_stripes
        invariant
            byte_idx <= n_stripes,
            n_outer == eq_outer@.len(),
            n_outer == 8 * n_stripes,
            z_packed@.len() == k * n_stripes,
            out@.len() == k,
            forall|i: int|
                0 <= i < k ==> #[trigger] out@[i] == row_fold(
                    z_packed@,
                    k as int,
                    eq_outer@,
                    (8 * byte_idx) as nat,
                    i,
                ),
        decreases n_stripes - byte_idx,
    {
        proof {
            assert(0 <= byte_idx * k && byte_idx * k + k <= k * n_stripes) by (nonlinear_arith)
                requires
                    0 <= byte_idx,
                    byte_idx + 1 <= n_stripes,
                    0 <= k,
            ;
        }
        let total: usize = z_packed.len();
        let ghost before = out@;
        let mut i_inner: usize = 0;
        while i_inner < k
            invariant
                i_inner <= k,
                byte_idx < n_stripes,
                n_outer == eq_outer@.len(),
                n_outer == 8 * n_stripes,
                total == z_packed@.len(),
                total == k * n_stripes,
                0 <= byte_idx * k,
                byte_idx * k + k <= total,
                out@.len() == k,
                before.len() == k,
                forall|i: int|
                    0 <= i < k ==> #[trigger] before[i] == row_fold(
                        z_packed@,
                        k as int,
                        eq_outer@,
                        (8 * byte_idx) as nat,
                        i,
                    ),
                forall|i: int|
                    0 <= i < i_inner ==> #[trigger] out@[i] == row_fold(
                        z_packed@,
                        k as int,
                        eq_outer@,
                        (8 * (byte_idx + 1)) as nat,
                        i,
                    ),
                forall|i: int| i_inner <= i < k ==> #[trigger] out@[i] == before[i],
            decreases k - i_inner,
        {
            let byte: u8 = z_packed[byte_idx * k + i_inner];
            let ghost f = fold_term(z_packed@, k as int, eq_outer@, i_inner as int);
            let mut acc = out[i_inner];
            let mut r: usize = 0;
            while r < 8
                invariant
                    r <= 8,
                    byte_idx < n_stripes,
                    n_outer == eq_outer@.len(),
                    n_outer == 8 * n_stripes,
                    byte == z_packed@[byte_idx * k + i_inner],
                    f == fold_term(z_packed@, k as int, eq_outer@, i_inner as int),
                    acc == sum((8 * byte_idx + r) as nat, f),
                decreases 8 - r,
            {
                let ghost o = 8 * byte_idx + r;
                proof {
                    assert(o / 8 == byte_idx && o % 8 == r);
                    lemma_mul_units(eq_outer@[o]);
                    lemma_add_zero(acc);
                    assert(sum((o + 1) as nat, f) == sum(o as nat, f) + f(o));
                }
                if (byte >> (r as u8)) & 1 == 1 {
                    acc = acc + eq_outer[8 * byte_idx + r];
                }
                r = r + 1;
            }
            out[i_inner] = acc;
            i_inner = i_inner + 1;
        }
        byte_idx = byte_idx + 1;
    }
    proof {
        assert(out@ =~= outer_fold(z_packed@, k as int, eq_outer@, k as int));
    }
    out
}

/// **Optimized single-matrix partial fold.** Same shape as
/// [`partial_fold_packed_z`] but uses 256-entry **sum-table lookups**: one
/// byte load, one table lookup and one addition per `(byte_idx, i_inner)` pair.
pub fn partial_fold_packed_z_fast(
    z_packed: &[u8],
    m: usize,
    k_log: usize,
    eq_outer: &[F128],
) -> (out: Vec<F128>)
    requires
        stripes_fit(z_packed@, m as int, k_log as int),
        eq_outer@.len() == pow2((m - k_log) as nat),
    ensures
        out@ == outer_fold(z_packed@, pow2(k_log as nat) as int, eq_outer@, pow2(k_log as nat) as int),
{
    proof {
        lemma_stripes(m as nat, k_log as nat);
    }
    let k: usize = pow2_usize(k_log);
    partial_fold_packed_z_fast_padded(z_packed, m, k_log, k, eq_outer)
}

/// Padding-aware variant of [`partial_fold_packed_z_fast`]. Skips rows
/// `i_inner ∈ [useful_bits, k)` — those rows hold zero in every block of an
/// honestly padded witness, so the fold over the outer dim is zero.
pub fn partial_fold_packed_z_fast_padded(
    z_packed: &[u8],
    m: usize,
    k_log: usize,
    useful_bits: usize,
    eq_outer: &[F128],
) -> (out: Vec<F128>)
    requires
        stripes_fit(z_packed@, m as int, k_log as int),
        eq_outer@.len() == pow2((m - k_log) as nat),
        useful_bits <= pow2(k_log as nat),
    ensures
        out@ == outer_fold(
            z_packed@,
            pow2(k_log as nat) as int,
            eq_outer@,
            useful_bits as int,
        ),
{
    proof {
        lemma_stripes(m as nat, k_log as nat);
    }
    let k: usize = pow2_usize(k_log);
    let n_outer: usize = eq_outer.len();
    let n_stripes: usize = n_outer / 8;
    let mut out: Vec<F128> = vec![F128::zero(); k];
    let mut table: Vec<F128> = vec![F128::zero(); 256];
    let mut byte_idx: usize = 0;
    while byte_idx < n_stripes
        invariant
            byte_idx <= n_stripes,
            n_outer == eq_outer@.len(),
            n_outer == 8 * n_stripes,
            z_packed@.len() == k * n_stripes,
            useful_bits <= k,
            table@.len() == 256,
            out@.len() == k,
            forall|i: int|
                0 <= i < useful_bits ==> #[trigger] out@[i] == row_fold(
                    z_packed@,
                    k as int,
                    eq_outer@,
                    (8 * byte_idx) as nat,
                    i,
                ),
            forall|i: int| useful_bits <= i < k ==> #[trigger] out@[i] == F128::zero(),
        decreases n_stripes - byte_idx,
    {
        proof {
            assert(0 <= byte_idx * k && byte_idx * k + k <= k * n_stripes) by (nonlinear_arith)
                requires
                    0 <= byte_idx,
                    byte_idx + 1 <= n_stripes,
                    0 <= k,
            ;
        }
        build_sum_table(eq_outer, 8 * byte_idx, &mut table, 0);
        let total: usize = z_packed.len();
        let mut i_inner: usize = 0;
        while i_inner < useful_bits
            invariant
                i_inner <= useful_bits,
                useful_bits <= k,
                byte_idx < n_stripes,
                n_outer == eq_outer@.len(),
                n_outer == 8 * n_stripes,
                total == z_packed@.len(),
                total == k * n_stripes,
                0 <= byte_idx * k,
                byte_idx * k + k <= total,
                table@.len() == 256,
                forall|b: int|
                    0 <= b < 256 ==> #[trigger] table@[0 + b] == subset_sum(
                        eq_outer@.subrange(8 * byte_idx, 8 * byte_idx + 8),
                        b as nat,
                        8,
                    ),
                out@.len() == k,
                forall|i: int|
                    0 <= i < i_inner ==> #[trigger] out@[i] == row_fold(
                        z_packed@,
                        k as int,
                        eq_outer@,
                        (8 * (byte_idx + 1)) as nat,
                        i,
                    ),
                forall|i: int|
                    i_inner <= i < useful_bits ==> #[trigger] out@[i] == row_fold(
                        z_packed@,
                        k as int,
                        eq_outer@,
                        (8 * byte_idx) as nat,
                        i,
                    ),
                forall|i: int| useful_bits <= i < k ==> #[trigger] out@[i] == F128::zero(),
            decreases useful_bits - i_inner,
        {
            let z_byte: usize = z_packed[byte_idx * k + i_inner] as usize;
            proof {
                lemma_fold_stripe(
                    z_packed@,
                    k as int,
                    eq_outer@,
                    byte_idx as int,
                    i_inner as int,
                );
                assert(table@[0 + z_byte] == table@[z_byte as int]);
            }
            out[i_inner] = out[i_inner] + table[z_byte];
            i_inner = i_inner + 1;
        }
        byte_idx = byte_idx + 1;
    }
    proof {
        assert(out@ =~= outer_fold(z_packed@, k as int, eq_outer@, useful_bits as int));
    }
    out
}

// ---------------------------------------------------------------------------
// Packing into stripes
// ---------------------------------------------------------------------------

/// Pack a logical Boolean witness vector into the lincheck `z_packed`
/// stripe layout. The input `z_logical` is indexed linearly with
/// `z_logical[i_inner + i_outer · k]` = z's value at `(i_inner, i_outer)`.
/// The output `z_packed[byte_idx · k + i_inner]` holds 8 outer bits
/// `z[i_inner, 8·byte_idx + r]` for `r ∈ 0..8`, with bit `r` within the byte.
///
/// See the module-level docs for the full bit-position decomposition.
pub fn pack_z_lincheck(z_logical: &[bool], m: usize, k_log: usize) -> (z_packed: Vec<u8>)
    requires
        m >= k_log + 3,
        z_logical@.len() == pow2(m as nat),
    ensures
        stripes_fit(z_packed@, m as int, k_log as int),
        forall|i: int, o: int|
            0 <= i < pow2(k_log as nat) && 0 <= o < pow2((m - k_log) as nat)
                ==> #[trigger] stripe_bit(z_packed@, pow2(k_log as nat) as int, i, o)
                == z_logical@[i + o * pow2(k_log as nat)],
{
    proof {
        lemma_stripes(m as nat, k_log as nat);
        lemma_blocks(m as nat, k_log as nat);
    }
    let n_total: usize = z_logical.len();
    let k: usize = pow2_usize(k_log);
    let n_outer: usize = n_total / k;
    let n_stripes: usize = n_outer / 8;
    let ghost bits = |g: int| z_logical@[g];
    let mut z_packed: Vec<u8> = Vec::with_capacity(n_total / 8);
    let mut byte_idx: usize = 0;
    assert(0 * k == 0) by (nonlinear_arith);
    while byte_idx < n_stripes
        invariant
            byte_idx <= n_stripes,
            n_outer == 8 * n_stripes,
            n_total == z_logical@.len(),
            n_total == k * n_outer,
            k > 0,
            bits == (|g: int| z_logical@[g]),
            z_packed@.len() == byte_idx * k,
            stripes_hold(z_packed@, k as int, bits, z_packed@.len() as int),
        decreases n_stripes - byte_idx,
    {
        let mut i_inner: usize = 0;
        while i_inner < k
            invariant
                i_inner <= k,
                byte_idx < n_stripes,
                n_outer == 8 * n_stripes,
                n_total == z_logical@.len(),
                n_total == k * n_outer,
                k > 0,
                bits == (|g: int| z_logical@[g]),
                z_packed@.len() == byte_idx * k + i_inner,
                stripes_hold(z_packed@, k as int, bits, z_packed@.len() as int),
            decreases k - i_inner,
        {
            let mut byte: u8 = 0;
            let mut r: usize = 0;
            proof {
                assert forall|q: int| 0 <= q < 8 implies !(#[trigger] bit8(byte, q)) by {
                    lemma_bit8_ops(0, 0, 0, q);
                }
            }
            while r < 8
                invariant
                    r <= 8,
                    i_inner < k,
                    byte_idx < n_stripes,
                    n_outer == 8 * n_stripes,
                    n_total == z_logical@.len(),
                    n_total == k * n_outer,
                    forall|q: int|
                        0 <= q < 8 ==> #[trigger] bit8(byte, q) == (q < r && z_logical@[i_inner + (8
                            * byte_idx + q) * k]),
                decreases 8 - r,
            {
                let i_outer: usize = 8 * byte_idx + r;
                proof {
                    lemma_logical_index(i_outer as int, k as int, n_outer as int, i_inner as int);
                    assert forall|q: int| 0 <= q < 8 implies #[trigger] bit8(byte | (1u8 << (r as u8)), q)
                        == (q == r || bit8(byte, q)) by {
                        lemma_bit8_ops(byte, 0, r as int, q);
                    }
                }
                if z_logical[i_inner + i_outer * k] {
                    byte = byte | (1u8 << (r as u8));
                }
                r = r + 1;
            }
            let ghost before = z_packed@;
            z_packed.push(byte);
            proof {
                lemma_stripe_pushed(before, k as int, bits, byte_idx as int, i_inner as int, byte);
            }
            i_inner = i_inner + 1;
        }
        assert((byte_idx + 1) * k == byte_idx * k + k) by (nonlinear_arith);
        byte_idx = byte_idx + 1;
    }
    proof {
        assert(n_stripes * k == k * n_stripes) by (nonlinear_arith);
        lemma_stripes_hold(z_packed@, k as int, bits, n_stripes as int);
    }
    z_packed
}

/// The first `n` bytes hold the bits that `bits` gives to `i_inner + i_outer · k`.
spec fn stripes_hold(z: Seq<u8>, k: int, bits: spec_fn(int) -> bool, n: int) -> bool {
    forall|p: int, r: int|
        0 <= p < n && 0 <= r < 8 ==> #[trigger] bit8(z[p], r) == bits(p % k + (8 * (p / k) + r) * k)
}

proof fn lemma_stripe_pushed(
    z: Seq<u8>,
    k: int,
    bits: spec_fn(int) -> bool,
    stripe: int,
    i: int,
    byte: u8,
)
    requires
        0 <= i < k,
        0 <= stripe,
        z.len() == stripe * k + i,
        stripes_hold(z, k, bits, z.len() as int),
        forall|r: int| 0 <= r < 8 ==> #[trigger] bit8(byte, r) == bits(i + (8 * stripe + r) * k),
    ensures
        stripes_hold(z.push(byte), k, bits, (z.len() + 1) as int),
{
    let w = z.push(byte);
    lemma_block_position(stripe, k, i);
    assert forall|p: int, r: int| 0 <= p < z.len() + 1 && 0 <= r < 8 implies #[trigger] bit8(w[p], r)
        == bits(p % k + (8 * (p / k) + r) * k) by {
        if p < z.len() {
            assert(w[p] == z[p]);
            assert(bit8(z[p], r) == bits(p % k + (8 * (p / k) + r) * k));
        }
    }
}

proof fn lemma_stripes_hold(z: Seq<u8>, k: int, bits: spec_fn(int) -> bool, n_stripes: int)
    requires
        0 < k,
        z.len() == k * n_stripes,
        stripes_hold(z, k, bits, z.len() as int),
    ensures
        forall|i: int, o: int|
            0 <= i < k && 0 <= o < 8 * n_stripes ==> #[trigger] stripe_bit(z, k, i, o) == bits(i + o * k),
{
    assert forall|i: int, o: int| 0 <= i < k && 0 <= o < 8 * n_stripes implies #[trigger] stripe_bit(
        z,
        k,
        i,
        o,
    ) == bits(i + o * k) by {
        let (s, r) = (o / 8, o % 8);
        lemma_block_position(s, k, i);
        assert(s * k + i < k * n_stripes) by (nonlinear_arith)
            requires
                s + 1 <= n_stripes,
                0 <= i < k,
        ;
        let p = s * k + i;
        assert(bit8(z[p], r) == bits(p % k + (8 * (p / k) + r) * k));
    }
}

proof fn lemma_logical_index(o: int, k: int, n_outer: int, i: int)
    requires
        0 <= o < n_outer,
        0 <= i < k,
    ensures
        0 <= o * k,
        i + o * k < k * n_outer,
{
    assert(0 <= o * k && i + o * k < k * n_outer) by (nonlinear_arith)
        requires
            0 <= o,
            o + 1 <= n_outer,
            0 <= i < k,
    ;
}

/// Same output as [`pack_z_lincheck`] but reads bits from an F_{2^128}-packed
/// witness (polynomial basis: bit `i` of logical = bit `i % 128` of
/// `z_packed_f128[i / 128]`).
pub fn pack_z_lincheck_from_packed(z_packed_f128: &[F128], m: usize, k_log: usize) -> (z_packed: Vec<
    u8,
>)
    requires
        m >= k_log + 3,
        m >= 7,
        pow2(m as nat) <= usize::MAX,
        z_packed_f128@.len() == pow2(m as nat) / 128,
    ensures
        stripes_fit(z_packed@, m as int, k_log as int),
        forall|i: int, o: int|
            0 <= i < pow2(k_log as nat) && 0 <= o < pow2((m - k_log) as nat)
                ==> #[trigger] stripe_bit(z_packed@, pow2(k_log as nat) as int, i, o) == packed_bit(
                z_packed_f128@,
                i + o * pow2(k_log as nat),
            ),
{
    proof {
        lemma_stripes(m as nat, k_log as nat);
        lemma_blocks(m as nat, k_log as nat);
        lemma_packed_len(m as nat);
    }
    let n_total: usize = pow2_usize(m);
    let k: usize = pow2_usize(k_log);
    let n_outer: usize = n_total / k;
    let n_stripes: usize = n_outer / 8;
    let ghost bits = |g: int| packed_bit(z_packed_f128@, g);
    let mut z_packed: Vec<u8> = Vec::with_capacity(n_total / 8);
    let mut byte_idx: usize = 0;
    assert(0 * k == 0) by (nonlinear_arith);
    while byte_idx < n_stripes
        invariant
            byte_idx <= n_stripes,
            n_outer == 8 * n_stripes,
            n_total == 128 * z_packed_f128@.len(),
            n_total == k * n_outer,
            k > 0,
            bits == (|g: int| packed_bit(z_packed_f128@, g)),
            z_packed@.len() == byte_idx * k,
            stripes_hold(z_packed@, k as int, bits, z_packed@.len() as int),
        decreases n_stripes - byte_idx,
    {
        let mut i_inner: usize = 0;
        while i_inner < k
            invariant
                i_inner <= k,
                byte_idx < n_stripes,
                n_outer == 8 * n_stripes,
                n_total == 128 * z_packed_f128@.len(),
                n_total == k * n_outer,
                k > 0,
                bits == (|g: int| packed_bit(z_packed_f128@, g)),
                z_packed@.len() == byte_idx * k + i_inner,
                stripes_hold(z_packed@, k as int, bits, z_packed@.len() as int),
            decreases k - i_inner,
        {
            let mut byte: u8 = 0;
            let mut r: usize = 0;
            proof {
                assert forall|q: int| 0 <= q < 8 implies !(#[trigger] bit8(byte, q)) by {
                    lemma_bit8_ops(0, 0, 0, q);
                }
            }
            while r < 8
                invariant
                    r <= 8,
                    i_inner < k,
                    byte_idx < n_stripes,
                    n_outer == 8 * n_stripes,
                    n_total == 128 * z_packed_f128@.len(),
                    n_total == k * n_outer,
                    forall|q: int|
                        0 <= q < 8 ==> #[trigger] bit8(byte, q) == (q < r && packed_bit(
                            z_packed_f128@,
                            i_inner + (8 * byte_idx + q) * k,
                        )),
                decreases 8 - r,
            {
                let i_outer: usize = 8 * byte_idx + r;
                proof {
                    lemma_logical_index(i_outer as int, k as int, n_outer as int, i_inner as int);
                    assert forall|q: int| 0 <= q < 8 implies #[trigger] bit8(byte | (1u8 << (r as u8)), q)
                        == (q == r || bit8(byte, q)) by {
                        lemma_bit8_ops(byte, 0, r as int, q);
                    }
                }
                if get_bit_packed(z_packed_f128, i_inner + i_outer * k) {
                    byte = byte | (1u8 << (r as u8));
                }
                r = r + 1;
            }
            let ghost before = z_packed@;
            z_packed.push(byte);
            proof {
                lemma_stripe_pushed(before, k as int, bits, byte_idx as int, i_inner as int, byte);
            }
            i_inner = i_inner + 1;
        }
        assert((byte_idx + 1) * k == byte_idx * k + k) by (nonlinear_arith);
        byte_idx = byte_idx + 1;
    }
    proof {
        assert(n_stripes * k == k * n_stripes) by (nonlinear_arith);
        lemma_stripes_hold(z_packed@, k as int, bits, n_stripes as int);
    }
    z_packed
}

// ---------------------------------------------------------------------------
// Weights of a quirky point
// ---------------------------------------------------------------------------

/// `L_{i_skip}(z_skip) · eq(x_inner_rest, i_inner_rest)` for
/// `i = i_skip + i_inner_rest · 2^k_skip`.
pub open spec fn quirky_weight(z_skip: F128, x_inner_rest: Seq<F128>, k_skip: nat, i: int) -> F128 {
    lagrange_weight(k_skip, z_skip, i % (pow2(k_skip) as int)) * eq_weight(
        x_inner_rest,
        (i / (pow2(k_skip) as int)) as nat,
    )
}

/// The weights of the inner half of a quirky point.
pub open spec fn quirky_table(z_skip: F128, x_inner_rest: Seq<F128>, k_skip: nat) -> Seq<F128> {
    Seq::new(
        pow2(k_skip) * pow2(x_inner_rest.len()),
        |i: int| quirky_weight(z_skip, x_inner_rest, k_skip, i),
    )
}

/// Build the **quirky eq table** for a claim point on the inner half:
///
///   `out[i_skip + i_inner_rest · 2^k_skip]
///     = L_{i_skip}(z_skip)  ·  eq(x_inner_rest, i_inner_rest)`
///
/// where `L_{i_skip}` are Lagrange weights at `z_skip` for the φ_8 basis
/// over `{0, …, 2^k_skip − 1}`. Length: `2^k_log`.
///
/// Encoding: the skip dim occupies the **low** `k_skip` bits of the table
/// index (matches z_packed's stripe layout / zerocheck's LSB-first
/// univariate-skip variable ordering). The `k_log − k_skip` multilinear
/// inner-rest dims occupy the next bits.
pub fn build_quirky_eq_table(z_skip: F128, x_inner_rest: &[F128], k_skip: usize) -> (out: Vec<F128>)
    requires
        k_skip <= 8,
        pow2(k_skip as nat) * pow2(x_inner_rest@.len()) <= usize::MAX,
    ensures
        out@ == quirky_table(z_skip, x_inner_rest@, k_skip as nat),
{
    proof {
        lemma_pow2_pos(k_skip as nat);
        lemma_pow2_pos(x_inner_rest@.len());
        let (a, b) = (pow2(k_skip as nat) as int, pow2(x_inner_rest@.len()) as int);
        assert(b <= a * b) by (nonlinear_arith)
            requires
                a >= 1,
                b >= 1,
        ;
        crate::zerocheck::multilinear::lemma_small_powers(k_skip as nat);
    }
    let lambda_skip = lagrange_weights_naive(k_skip, z_skip);
    let eq_rest = build_eq_table(x_inner_rest);
    let n_skip: usize = lambda_skip.len();
    let n_rest: usize = eq_rest.len();
    let mut out: Vec<F128> = Vec::with_capacity(n_skip * n_rest);
    let mut i_rest: usize = 0;
    assert(0 * n_skip == 0) by (nonlinear_arith);
    while i_rest < n_rest
        invariant
            i_rest <= n_rest,
            n_skip == pow2(k_skip as nat),
            n_rest == pow2(x_inner_rest@.len()),
            n_skip > 0,
            lambda_skip@ == lagrange_table(k_skip as nat, z_skip),
            eq_rest@ == eq_table(x_inner_rest@),
            out@.len() == i_rest * n_skip,
            forall|i: int|
                0 <= i < out@.len() ==> #[trigger] out@[i] == quirky_weight(
                    z_skip,
                    x_inner_rest@,
                    k_skip as nat,
                    i,
                ),
        decreases n_rest - i_rest,
    {
        let er = eq_rest[i_rest];
        let mut i_skip: usize = 0;
        while i_skip < n_skip
            invariant
                i_skip <= n_skip,
                i_rest < n_rest,
                n_skip == pow2(k_skip as nat),
                n_rest == pow2(x_inner_rest@.len()),
                n_skip > 0,
                lambda_skip@ == lagrange_table(k_skip as nat, z_skip),
                er == eq_weight(x_inner_rest@, i_rest as nat),
                out@.len() == i_rest * n_skip + i_skip,
                forall|i: int|
                    0 <= i < out@.len() ==> #[trigger] out@[i] == quirky_weight(
                        z_skip,
                        x_inner_rest@,
                        k_skip as nat,
                        i,
                    ),
            decreases n_skip - i_skip,
        {
            proof {
                lemma_block_position(i_rest as int, n_skip as int, i_skip as int);
            }
            out.push(lambda_skip[i_skip] * er);
            i_skip = i_skip + 1;
        }
        assert((i_rest + 1) * n_skip == i_rest * n_skip + n_skip) by (nonlinear_arith);
        i_rest = i_rest + 1;
    }
    proof {
        assert(n_rest * n_skip == n_skip * n_rest) by (nonlinear_arith);
        assert(out@ =~= quirky_table(z_skip, x_inner_rest@, k_skip as nat));
    }
    out
}

/// Dot product of two equal-length F128 slices.
pub(crate) fn inner_product(a: &[F128], b: &[F128]) -> (r: F128)
    requires
        a@.len() == b@.len(),
    ensures
        r == dot(a@, b@),
{
    let n: usize = a.len();
    let ghost f = |i: int| a@[i] * b@[i];
    let mut acc = F128::zero();
    let mut i: usize = 0;
    while i < n
        invariant
            i <= n,
            n == a@.len(),
            n == b@.len(),
            f == (|i: int| a@[i] * b@[i]),
            acc == sum(i as nat, f),
        decreases n - i,
    {
        assert(sum((i + 1) as nat, f) == sum(i as nat, f) + f(i as int));
        acc = acc + a[i] * b[i];
        i = i + 1;
    }
    acc
}

} // verus!
