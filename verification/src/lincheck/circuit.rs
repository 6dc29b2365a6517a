//! The per-block linear structure that lincheck consumes.
//!
//! Lincheck's hot path computes a single length-`k = 2^k_log` vector
//!
//!   `comb_vec[c] = α · ξ_A(c) + ξ_B(c)`
//!
//! where `ξ_M(c) = Σ_r eq_inner[r] · M[r, c]` is the eq-weighted column
//! marginal of base matrix `M ∈ {A_0, B_0}`.
use vstd::prelude::*;
use crate::algebra::{lemma_sum_add, lemma_sum_ext, lemma_sum_zero, sum};
use crate::field::gf2_128::{lemma_mul_commutes, lemma_mul_distributes, lemma_mul_units};
use crate::field::F128;
use crate::lincheck::fold::sparse_row_fold_alpha_batched;
use crate::r1cs::laws::{bit_value, lemma_bit_value_xor, lemma_one_term};
use crate::r1cs::{lemma_parity_ext, parity, SparseBinaryMatrix};

verus! {

/// Per-block linear structure consumed by lincheck. Implementations produce
/// the α-batched column marginal `comb_vec[c] = α · ξ_A(c) + ξ_B(c)` either
/// by sparse-matrix iteration or by walking the circuit directly.
pub trait LincheckCircuit: Sync {
    /// The representation is consistent.
    spec fn wf(&self) -> bool;

    /// The side of the base matrices `A_0`, `B_0`.
    spec fn side(&self) -> nat;

    spec fn a_entry(&self, r: int, c: int) -> bool;

    spec fn b_entry(&self, r: int, c: int) -> bool;

    /// The column of the pinned constant-one wire.
    spec fn pin(&self) -> Option<usize>;

    /// Number of columns in the per-block matrices A_0, B_0 (= k = 2^k_log).
    fn n_cols(&self) -> (n: usize)
        requires
            self.wf(),
        ensures
            n == self.side(),
    ;

    /// Compute `comb_vec[c] = α · (eq^T · A_0)[c] + (eq^T · B_0)[c]` over
    /// `c ∈ [0, n_cols())`. `eq_inner.len() == n_cols()`.
    fn fold_alpha_batched(&self, alpha: F128, eq_inner: &[F128]) -> (out: Vec<F128>)
        requires
            self.wf(),
            eq_inner@.len() == self.side(),
        ensures
            out@.len() == self.side(),
            forall|c: int|
                0 <= c < self.side() ==> #[trigger] out@[c] == alpha * sum(
                    self.side(),
                    |r: int| eq_inner@[r] * bit_value(self.a_entry(r, c)),
                ) + sum(self.side(), |r: int| eq_inner@[r] * bit_value(self.b_entry(r, c))),
    ;

    /// Column index of a constant-one wire to pin, or `None` if the circuit has
    /// no such wire. When `Some(col)`, lincheck folds one extra `β`-term into the
    /// comb so the sumcheck also proves that the committed constant column is the
    /// all-ones vector (whose MLE is the constant `1`), closing the all-zero
    /// witness soundness gap. This REQUIRES the witness to set that wire to `1`
    /// in *every* batched instance — padding included.
    fn const_pin_col(&self) -> (p: Option<usize>)
        ensures
            p == self.pin(),
    ;
}

/// `LincheckCircuit` over a pair of sparse binary matrices. Delegates to the
/// fused row-fold kernel.
pub struct SparseMatrixCircuit<'a> {
    pub a_0: &'a SparseBinaryMatrix,
    pub b_0: &'a SparseBinaryMatrix,
    /// Constant-wire pin column (see [`LincheckCircuit::const_pin_col`]).
    pub const_pin: Option<usize>,
}

impl<'a> SparseMatrixCircuit<'a> {
    pub fn new(a_0: &'a SparseBinaryMatrix, b_0: &'a SparseBinaryMatrix) -> (r: Self)
        requires
            a_0.num_rows == b_0.num_rows,
            a_0.num_cols == b_0.num_cols,
        ensures
            r.a_0 == a_0,
            r.b_0 == b_0,
            r.pin() == None::<usize>,
    {
        Self { a_0, b_0, const_pin: None }
    }

    /// Set the constant-wire pin column.
    pub fn with_const_pin(self, const_pin: Option<usize>) -> (r: Self)
        ensures
            r.a_0 == self.a_0,
            r.b_0 == self.b_0,
            r.pin() == const_pin,
    {
        Self { a_0: self.a_0, b_0: self.b_0, const_pin }
    }
}

impl<'a> LincheckCircuit for SparseMatrixCircuit<'a> {
    open spec fn wf(&self) -> bool {
        &&& self.a_0.square(self.a_0.num_cols as nat)
        &&& self.b_0.square(self.a_0.num_cols as nat)
    }

    open spec fn side(&self) -> nat {
        self.a_0.num_cols as nat
    }

    open spec fn a_entry(&self, r: int, c: int) -> bool {
        self.a_0.entry(r, c)
    }

    open spec fn b_entry(&self, r: int, c: int) -> bool {
        self.b_0.entry(r, c)
    }

    open spec fn pin(&self) -> Option<usize> {
        self.const_pin
    }

    fn n_cols(&self) -> (n: usize) {
        self.a_0.num_cols
    }

    fn fold_alpha_batched(&self, alpha: F128, eq_inner: &[F128]) -> (out: Vec<F128>) {
        let out = sparse_row_fold_alpha_batched(alpha, self.a_0, self.b_0, eq_inner);
        proof {
            assert forall|c: int| 0 <= c < self.side() implies #[trigger] out@[c] == alpha * sum(
                self.side(),
                |r: int| eq_inner@[r] * bit_value(self.a_entry(r, c)),
            ) + sum(self.side(), |r: int| eq_inner@[r] * bit_value(self.b_entry(r, c))) by {
                lemma_sum_ext(
                    self.side(),
                    |r: int| eq_inner@[r] * bit_value(self.a_0.entry(r, c)),
                    |r: int| eq_inner@[r] * bit_value(self.a_entry(r, c)),
                );
                lemma_sum_ext(
                    self.side(),
                    |r: int| eq_inner@[r] * bit_value(self.b_0.entry(r, c)),
                    |r: int| eq_inner@[r] * bit_value(self.b_entry(r, c)),
                );
            }
        }
        out
    }

    fn const_pin_col(&self) -> (p: Option<usize>) {
        self.const_pin
    }
}

// ---------------------------------------------------------------------------
// Column-major circuits
// ---------------------------------------------------------------------------

/// Column-major (CSC) `LincheckCircuit`: `(A_0, B_0)` transposed once into
/// flat `col_ptr`/`row_idx` arrays. `fold_alpha_batched` becomes a gather —
/// each column reads its own row list and sums `eq_inner[r]`, so columns are
/// independent and the α-mul amortizes to one per column:
///
///   `comb[c] = α · Σ_{r ∈ colA(c)} eq_inner[r] + Σ_{r ∈ colB(c)} eq_inner[r]`
///
/// Construction costs one pass over the nonzeros — do it once at setup, e.g.
/// via [`crate::r1cs::BlockR1cs::csc_lincheck_circuit`].
#[derive(Clone, Debug)]
pub struct CscCircuit {
    n_cols: usize,
    a_col_ptr: Vec<u32>,
    a_rows: Vec<u32>,
    b_col_ptr: Vec<u32>,
    b_rows: Vec<u32>,
    /// Constant-wire pin column (see [`LincheckCircuit::const_pin_col`]).
    const_pin: Option<usize>,
}

/// The column lists are consistent: column `c` is
/// `rows[col_ptr[c]..col_ptr[c + 1]]`, and every row is below `n`.
spec fn csc_wf(n: int, col_ptr: Seq<u32>, rows: Seq<u32>) -> bool {
    &&& col_ptr.len() == n + 1
    &&& forall|c: int| 0 <= c < n ==> (#[trigger] col_ptr[c]) <= col_ptr[c + 1]
    &&& forall|c: int| 0 <= c <= n ==> (#[trigger] col_ptr[c]) <= rows.len()
    &&& forall|t: int| 0 <= t < rows.len() ==> (#[trigger] rows[t]) < n
}

spec fn csc_entry(col_ptr: Seq<u32>, rows: Seq<u32>, r: int, c: int) -> bool {
    parity((col_ptr[c + 1] - col_ptr[c]) as nat, is_row(col_ptr[c] as int, rows, r))
}

/// Entries of column `c` among the first `n` of a row.
spec fn in_row(row: Seq<usize>, n: nat, c: int) -> nat
    decreases n,
{
    if n == 0 {
        0
    } else {
        in_row(row, (n - 1) as nat, c) + (if row[n - 1] == c {
            1nat
        } else {
            0
        })
    }
}

/// Entries of column `c` in the first `rows` rows.
spec fn in_rows(m: SparseBinaryMatrix, rows: nat, c: int) -> nat
    decreases rows,
{
    if rows == 0 {
        0
    } else {
        in_rows(m, (rows - 1) as nat, c) + in_row(
            m.rows@[rows - 1]@,
            m.rows@[rows - 1]@.len(),
            c,
        )
    }
}

/// Entries of column `c` before position `j` of row `r`.
spec fn seen(m: SparseBinaryMatrix, r: nat, j: nat, c: int) -> nat {
    in_rows(m, r, c) + (if j == 0 {
        0
    } else {
        in_row(m.rows@[r as int]@, j, c)
    })
}

/// Entries of the columns below `n` before position `j` of row `r`.
spec fn seen_below(m: SparseBinaryMatrix, r: nat, j: nat, n: nat) -> nat
    decreases n,
{
    if n == 0 {
        0
    } else {
        seen_below(m, r, j, (n - 1) as nat) + seen(m, r, j, n - 1)
    }
}

proof fn lemma_seen_step(m: SparseBinaryMatrix, r: nat, j: nat, c: int)
    requires
        r < m.rows@.len(),
        j < m.rows@[r as int]@.len(),
    ensures
        seen(m, r, j + 1, c) == seen(m, r, j, c) + (if m.rows@[r as int]@[j as int] == c {
            1nat
        } else {
            0
        }),
{
}

proof fn lemma_seen_wrap(m: SparseBinaryMatrix, r: nat, c: int)
    requires
        r < m.rows@.len(),
    ensures
        seen(m, r, m.rows@[r as int]@.len(), c) == seen(m, r + 1, 0, c),
{
}

proof fn lemma_below_step(m: SparseBinaryMatrix, r: nat, j: nat, n: nat)
    requires
        r < m.rows@.len(),
        j < m.rows@[r as int]@.len(),
    ensures
        seen_below(m, r, j + 1, n) == seen_below(m, r, j, n) + (if m.rows@[r as int]@[j as int] < n {
            1nat
        } else {
            0
        }),
    decreases n,
{
    if n > 0 {
        lemma_below_step(m, r, j, (n - 1) as nat);
        lemma_seen_step(m, r, j, n - 1);
    }
}

proof fn lemma_below_wrap(m: SparseBinaryMatrix, r: nat, n: nat)
    requires
        r < m.rows@.len(),
    ensures
        seen_below(m, r, m.rows@[r as int]@.len(), n) == seen_below(m, r + 1, 0, n),
    decreases n,
{
    if n > 0 {
        lemma_below_wrap(m, r, (n - 1) as nat);
        lemma_seen_wrap(m, r, n - 1);
    }
}

/// All entries before a position: those of whole rows and those of its row.
proof fn lemma_below_total(m: SparseBinaryMatrix, r: nat, j: nat)
    requires
        m.wf(),
        r <= m.rows@.len(),
        j == 0 || (r < m.rows@.len() && j <= m.rows@[r as int]@.len()),
    ensures
        seen_below(m, r, j, m.num_cols as nat) == m.nonzeros(r) + j,
    decreases r, j,
{
    if j > 0 {
        lemma_below_total(m, r, (j - 1) as nat);
        lemma_below_step(m, r, (j - 1) as nat, m.num_cols as nat);
        assert(m.rows@[r as int]@[j - 1] < m.num_cols);
    } else if r > 0 {
        lemma_below_total(m, (r - 1) as nat, m.rows@[r - 1]@.len());
        lemma_below_wrap(m, (r - 1) as nat, m.num_cols as nat);
    } else {
        lemma_below_empty(m, m.num_cols as nat);
    }
}

proof fn lemma_below_empty(m: SparseBinaryMatrix, n: nat)
    ensures
        seen_below(m, 0, 0, n) == 0,
    decreases n,
{
    if n > 0 {
        lemma_below_empty(m, (n - 1) as nat);
    }
}

/// One column's entries are among those of all columns; columns add up.
proof fn lemma_below_bounds(m: SparseBinaryMatrix, r: nat, j: nat, a: nat, b: nat)
    requires
        a <= b,
    ensures
        seen_below(m, r, j, a) <= seen_below(m, r, j, b),
        a < b ==> seen_below(m, r, j, a) + seen(m, r, j, a as int) <= seen_below(m, r, j, b),
    decreases b,
{
    if a < b {
        if a + 1 < b {
            lemma_below_bounds(m, r, j, a, (b - 1) as nat);
        }
    }
}

/// What was seen before a position is at most what is seen at the end.
proof fn lemma_seen_grows(m: SparseBinaryMatrix, r: nat, j: nat, c: int)
    requires
        r < m.rows@.len(),
        j < m.rows@[r as int]@.len(),
    ensures
        seen(m, r, j + 1, c) <= in_rows(m, m.rows@.len(), c),
{
    lemma_in_row_grows(m.rows@[r as int]@, j + 1, m.rows@[r as int]@.len(), c);
    lemma_in_rows_grows(m, r + 1, m.rows@.len(), c);
}

proof fn lemma_in_row_grows(row: Seq<usize>, a: nat, b: nat, c: int)
    requires
        a <= b,
    ensures
        in_row(row, a, c) <= in_row(row, b, c),
    decreases b,
{
    if a < b {
        lemma_in_row_grows(row, a, (b - 1) as nat, c);
    }
}

proof fn lemma_in_rows_grows(m: SparseBinaryMatrix, a: nat, b: nat, c: int)
    requires
        a <= b,
    ensures
        in_rows(m, a, c) <= in_rows(m, b, c),
    decreases b,
{
    if a < b {
        lemma_in_rows_grows(m, a, (b - 1) as nat, c);
    }
}

/// The entry `(q, c)` as far as the positions before `(r, j)` go.
spec fn seen_entry(m: SparseBinaryMatrix, r: nat, j: nat, q: int, c: int) -> bool {
    if q < r {
        m.entry(q, c)
    } else if q == r && j > 0 {
        parity(j, is_column(m.rows@[q]@, c))
    } else {
        false
    }
}

spec fn is_column(row: Seq<usize>, c: int) -> spec_fn(int) -> bool {
    |i: int| row[i] == c
}

/// The state of the second pass: column `c` holds the rows of its entries seen so far.
spec fn filled(
    m: SparseBinaryMatrix,
    col_ptr: Seq<u32>,
    next: Seq<u32>,
    rows: Seq<u32>,
    r: nat,
    j: nat,
) -> bool {
    forall|c: int, q: int|
        0 <= c < m.num_cols && 0 <= q < m.num_rows ==> #[trigger] column_parity(
            col_ptr[c] as int,
            (next[c] - col_ptr[c]) as nat,
            rows,
            q,
        ) == seen_entry(m, r, j, q, c)
}

spec fn column_parity(start: int, n: nat, rows: Seq<u32>, q: int) -> bool {
    parity(n, is_row(start, rows, q))
}

spec fn is_row(start: int, rows: Seq<u32>, q: int) -> spec_fn(int) -> bool {
    |t: int| rows[start + t] == q
}

/// First pass: the number of entries per column, as prefix sums.
fn column_starts(m: &SparseBinaryMatrix) -> (col_ptr: Vec<u32>)
    requires
        m.wf(),
        m.num_cols < usize::MAX,
        m.nonzeros(m.num_rows as nat) <= u32::MAX,
    ensures
        col_ptr@.len() == m.num_cols + 1,
        forall|c: int|
            0 <= c <= m.num_cols ==> #[trigger] col_ptr@[c] == seen_below(
                *m,
                m.num_rows as nat,
                0,
                c as nat,
            ),
{
    let n: usize = m.rows.len();
    let n_cols: usize = m.num_cols;
    let mut col_ptr: Vec<u32> = vec![0u32; n_cols + 1];
    let mut r: usize = 0;
    while r < n
        invariant
            r <= n,
            n == m.rows@.len(),
            n_cols == m.num_cols,
            m.wf(),
            m.nonzeros(n as nat) <= u32::MAX,
            col_ptr@.len() == n_cols + 1,
            col_ptr@[0] == 0,
            forall|c: int| 1 <= c <= n_cols ==> #[trigger] col_ptr@[c] == seen(*m, r as nat, 0, c - 1),
        decreases n - r,
    {
        let row = &m.rows[r];
        let len: usize = row.len();
        let mut j: usize = 0;
        while j < len
            invariant
                j <= len,
                r < n,
                n == m.rows@.len(),
                n_cols == m.num_cols,
                m.wf(),
                m.nonzeros(n as nat) <= u32::MAX,
                row == m.rows@[r as int],
                len == row@.len(),
                col_ptr@.len() == n_cols + 1,
                col_ptr@[0] == 0,
                forall|c: int|
                    1 <= c <= n_cols ==> #[trigger] col_ptr@[c] == seen(
                        *m,
                        r as nat,
                        j as nat,
                        c - 1,
                    ),
            decreases len - j,
        {
            assert(m.rows@[r as int]@[j as int] < m.num_cols);
            let c: usize = row[j];
            proof {
                assert forall|q: int| 1 <= q <= n_cols implies #[trigger] seen(
                    *m,
                    r as nat,
                    (j + 1) as nat,
                    q - 1,
                ) == seen(*m, r as nat, j as nat, q - 1) + (if q - 1 == c {
                    1nat
                } else {
                    0
                }) by {
                    lemma_seen_step(*m, r as nat, j as nat, q - 1);
                }
                lemma_seen_step(*m, r as nat, j as nat, c as int);
                lemma_seen_grows(*m, r as nat, j as nat, c as int);
                lemma_below_total(*m, n as nat, 0);
                lemma_below_bounds(*m, n as nat, 0, c as nat, n_cols as nat);
                assert(seen(*m, n as nat, 0, c as int) == in_rows(*m, n as nat, c as int));
                assert(col_ptr@[c + 1] == seen(*m, r as nat, j as nat, c as int));
            }
            col_ptr[c + 1] = col_ptr[c + 1] + 1;
            j = j + 1;
        }
        proof {
            assert forall|c: int| 1 <= c <= n_cols implies #[trigger] col_ptr@[c] == seen(
                *m,
                (r + 1) as nat,
                0,
                c - 1,
            ) by {
                lemma_seen_wrap(*m, r as nat, c - 1);
            }
        }
        r = r + 1;
    }
    let mut c: usize = 0;
    while c < n_cols
        invariant
            c <= n_cols,
            n == m.rows@.len(),
            n_cols == m.num_cols,
            m.wf(),
            m.nonzeros(n as nat) <= u32::MAX,
            col_ptr@.len() == n_cols + 1,
            forall|q: int|
                0 <= q <= c ==> #[trigger] col_ptr@[q] == seen_below(*m, n as nat, 0, q as nat),
            forall|q: int| c < q <= n_cols ==> #[trigger] col_ptr@[q] == seen(*m, n as nat, 0, q - 1),
        decreases n_cols - c,
    {
        proof {
            lemma_below_total(*m, n as nat, 0);
            lemma_below_bounds(*m, n as nat, 0, c as nat, n_cols as nat);
            assert(col_ptr@[c + 1] == seen(*m, n as nat, 0, c as int));
            assert(col_ptr@[c as int] == seen_below(*m, n as nat, 0, c as nat));
            assert(seen_below(*m, n as nat, 0, (c + 1) as nat) == seen_below(*m, n as nat, 0, c as nat)
                + seen(*m, n as nat, 0, c as int));
        }
        col_ptr[c + 1] = col_ptr[c + 1] + col_ptr[c];
        c = c + 1;
    }
    col_ptr
}

/// Flatten one sparse matrix into CSC arrays: rows with a 1 in column `c` are
/// `rows_flat[col_ptr[c] as usize .. col_ptr[c+1] as usize]`.
fn csc_from_rows(m: &SparseBinaryMatrix) -> (out: (Vec<u32>, Vec<u32>))
    requires
        m.square(m.num_cols as nat),
        m.num_cols <= u32::MAX,
        m.num_cols < usize::MAX,
        m.nonzeros(m.num_rows as nat) <= u32::MAX,
    ensures
        csc_wf(m.num_cols as int, out.0@, out.1@),
        forall|r: int, c: int|
            0 <= r < m.num_rows && 0 <= c < m.num_cols ==> #[trigger] csc_entry(
                out.0@,
                out.1@,
                r,
                c,
            ) == m.entry(r, c),
{
    let n: usize = m.rows.len();
    let n_cols: usize = m.num_cols;
    let col_ptr = column_starts(m);
    proof {
        lemma_below_total(*m, n as nat, 0);
    }
    let mut next: Vec<u32> = Vec::with_capacity(n_cols + 1);
    let mut i: usize = 0;
    while i < n_cols + 1
        invariant
            i <= n_cols + 1,
            n_cols < usize::MAX,
            col_ptr@.len() == n_cols + 1,
            next@.len() == i,
            forall|q: int| 0 <= q < i ==> #[trigger] next@[q] == col_ptr@[q],
        decreases n_cols + 1 - i,
    {
        next.push(col_ptr[i]);
        i = i + 1;
    }
    let total: usize = col_ptr[n_cols] as usize;
    let mut rows_flat: Vec<u32> = vec![0u32; total];
    proof {
        assert(filled(*m, col_ptr@, next@, rows_flat@, 0, 0)) by {
            assert forall|c: int, q: int| 0 <= c < m.num_cols && 0 <= q < m.num_rows implies #[trigger]
                column_parity(
                col_ptr@[c] as int,
                (next@[c] - col_ptr@[c]) as nat,
                rows_flat@,
                q,
            ) == seen_entry(*m, 0, 0, q, c) by {
                assert(next@[c] == col_ptr@[c]);
            }
        }
        assert forall|c: int| 0 <= c < n_cols implies #[trigger] next@[c] == col_ptr@[c] + seen(
            *m,
            0,
            0,
            c,
        ) by {}
        assert(n_cols == 0 ==> total == 0);
    }
    let mut r: usize = 0;
    while r < n
        invariant
            r <= n,
            n == m.rows@.len(),
            n_cols == m.num_cols,
            n_cols < usize::MAX,
            m.square(n_cols as nat),
            m.num_cols <= u32::MAX,
            m.nonzeros(n as nat) <= u32::MAX,
            col_ptr@.len() == n_cols + 1,
            next@.len() == n_cols + 1,
            total == seen_below(*m, n as nat, 0, n_cols as nat),
            rows_flat@.len() == total,
            forall|c: int|
                0 <= c <= n_cols ==> #[trigger] col_ptr@[c] == seen_below(
                    *m,
                    n as nat,
                    0,
                    c as nat,
                ),
            forall|c: int|
                0 <= c < n_cols ==> #[trigger] next@[c] == col_ptr@[c] + seen(*m, r as nat, 0, c),
            forall|t: int| 0 <= t < total && r > 0 ==> (#[trigger] rows_flat@[t]) < n_cols,
            forall|t: int| 0 <= t < total && r == 0 ==> (#[trigger] rows_flat@[t]) == 0,
            filled(*m, col_ptr@, next@, rows_flat@, r as nat, 0),
        decreases n - r,
    {
        let row = &m.rows[r];
        let len: usize = row.len();
        let mut j: usize = 0;
        while j < len
            invariant
                j <= len,
                r < n,
                n == m.rows@.len(),
                n_cols == m.num_cols,
                n_cols < usize::MAX,
                m.square(n_cols as nat),
                m.num_cols <= u32::MAX,
                m.nonzeros(n as nat) <= u32::MAX,
                row == m.rows@[r as int],
                len == row@.len(),
                col_ptr@.len() == n_cols + 1,
                next@.len() == n_cols + 1,
                total == seen_below(*m, n as nat, 0, n_cols as nat),
                rows_flat@.len() == total,
                forall|c: int|
                    0 <= c <= n_cols ==> #[trigger] col_ptr@[c] == seen_below(
                        *m,
                        n as nat,
                        0,
                        c as nat,
                    ),
                forall|c: int|
                    0 <= c < n_cols ==> #[trigger] next@[c] == col_ptr@[c] + seen(
                        *m,
                        r as nat,
                        j as nat,
                        c,
                    ),
                forall|t: int| 0 <= t < total ==> (#[trigger] rows_flat@[t]) < n_cols,
                filled(*m, col_ptr@, next@, rows_flat@, r as nat, j as nat),
            decreases len - j,
        {
            assert(m.rows@[r as int]@[j as int] < m.num_cols);
            let c: usize = row[j];
            let ghost (next0, flat0) = (next@, rows_flat@);
            proof {
                lemma_seen_step(*m, r as nat, j as nat, c as int);
                lemma_seen_grows(*m, r as nat, j as nat, c as int);
                lemma_below_bounds(*m, n as nat, 0, c as nat, n_cols as nat);
                lemma_below_total(*m, n as nat, 0);
                assert(next@[c as int] == col_ptr@[c as int] + seen(*m, r as nat, j as nat, c as int));
                assert(seen(*m, n as nat, 0, c as int) == in_rows(*m, n as nat, c as int));
            }
            let at: usize = next[c] as usize;
            rows_flat[at] = r as u32;
            next[c] = next[c] + 1;
            proof {
                assert forall|q: int| 0 <= q < n_cols implies #[trigger] next@[q] == col_ptr@[q] + seen(
                    *m,
                    r as nat,
                    (j + 1) as nat,
                    q,
                ) by {
                    lemma_seen_step(*m, r as nat, j as nat, q);
                    assert(next0[q] == col_ptr@[q] + seen(*m, r as nat, j as nat, q));
                }
                assert forall|k: int, q: int| 0 <= k < m.num_cols && 0 <= q < m.num_rows implies #[trigger]
                    column_parity(
                    col_ptr@[k] as int,
                    (next@[k] - col_ptr@[k]) as nat,
                    rows_flat@,
                    q,
                ) == seen_entry(*m, r as nat, (j + 1) as nat, q, k) by {
                    lemma_fill_step(
                        *m,
                        col_ptr@,
                        next0,
                        flat0,
                        r as nat,
                        j as nat,
                        c as int,
                        k,
                        q,
                    );
                }
            }
            j = j + 1;
        }
        proof {
            assert forall|c: int| 0 <= c < n_cols implies #[trigger] next@[c] == col_ptr@[c] + seen(
                *m,
                (r + 1) as nat,
                0,
                c,
            ) by {
                lemma_seen_wrap(*m, r as nat, c);
            }
            assert forall|c: int, q: int| 0 <= c < m.num_cols && 0 <= q < m.num_rows implies #[trigger]
                column_parity(
                col_ptr@[c] as int,
                (next@[c] - col_ptr@[c]) as nat,
                rows_flat@,
                q,
            ) == seen_entry(*m, (r + 1) as nat, 0, q, c) by {
                if q == r {
                    lemma_parity_ext(
                        len as nat,
                        is_column(m.rows@[q]@, c),
                        |j: int| m.rows@[q]@[j] == c,
                    );
                }
            }
        }
        r = r + 1;
    }
    proof {
        assert forall|r: int, c: int| 0 <= r < m.num_rows && 0 <= c < m.num_cols implies #[trigger]
            csc_entry(col_ptr@, rows_flat@, r, c) == m.entry(r, c) by {
            assert(next@[c] == col_ptr@[c] + seen(*m, n as nat, 0, c));
            assert(seen_below(*m, n as nat, 0, (c + 1) as nat) == seen_below(*m, n as nat, 0, c as nat)
                + seen(*m, n as nat, 0, c));
            assert(col_ptr@[c + 1] == next@[c]);
            assert(column_parity(
                col_ptr@[c] as int,
                (next@[c] - col_ptr@[c]) as nat,
                rows_flat@,
                r,
            ) == seen_entry(*m, n as nat, 0, r, c));
        }
        assert forall|c: int| 0 <= c < n_cols implies (#[trigger] col_ptr@[c]) <= col_ptr@[c + 1] by {
            lemma_below_bounds(*m, n as nat, 0, c as nat, (c + 1) as nat);
            assert(col_ptr@[c + 1] == seen_below(*m, n as nat, 0, (c + 1) as nat));
        }
        assert forall|c: int| 0 <= c <= n_cols implies (#[trigger] col_ptr@[c]) <= rows_flat@.len() by {
            lemma_below_bounds(*m, n as nat, 0, c as nat, n_cols as nat);
        }
        if n == 0 {
            assert(n_cols == 0);
        }
    }
    (col_ptr, rows_flat)
}

/// Writing one entry: the list of its column grows by its row.
proof fn lemma_fill_step(
    m: SparseBinaryMatrix,
    col_ptr: Seq<u32>,
    next: Seq<u32>,
    rows: Seq<u32>,
    r: nat,
    j: nat,
    c: int,
    k: int,
    q: int,
)
    requires
        m.wf(),
        r < m.rows@.len(),
        m.num_rows <= u32::MAX,
        j < m.rows@[r as int]@.len(),
        c == m.rows@[r as int]@[j as int],
        0 <= k < m.num_cols,
        0 <= q < m.num_rows,
        col_ptr.len() == m.num_cols + 1,
        next.len() == m.num_cols + 1,
        forall|c: int|
            0 <= c <= m.num_cols ==> #[trigger] col_ptr[c] == seen_below(
                m,
                m.rows@.len(),
                0,
                c as nat,
            ),
        forall|c: int|
            0 <= c < m.num_cols ==> #[trigger] next[c] == col_ptr[c] + seen(m, r, j, c),
        rows.len() == seen_below(m, m.rows@.len(), 0, m.num_cols as nat),
        next[c] < rows.len(),
        next[c] < u32::MAX,
        filled(m, col_ptr, next, rows, r, j),
    ensures
        ({
            let next1 = next.update(c, (next[c] + 1) as u32);
            let rows1 = rows.update(next[c] as int, r as u32);
            column_parity(col_ptr[k] as int, (next1[k] - col_ptr[k]) as nat, rows1, q)
                == seen_entry(m, r, j + 1, q, k)
        }),
{
    let n = m.rows@.len();
    assert(m.rows@[r as int]@[j as int] < m.num_cols);
    let next1 = next.update(c, (next[c] + 1) as u32);
    let rows1 = rows.update(next[c] as int, r as u32);
    let start = col_ptr[k] as int;
    let len = (next[k] - col_ptr[k]) as nat;
    assert(next[k] == col_ptr[k] + seen(m, r, j, k));
    assert(next[c] == col_ptr[c] + seen(m, r, j, c));
    assert(column_parity(start, len, rows, q) == seen_entry(m, r, j, q, k));
    let f = is_row(start, rows, q);
    let g = is_row(start, rows1, q);
    // the written position is not among those that column k held before
    assert(next[c] < start || next[c] >= start + len) by {
        if k < c {
            lemma_seen_grows(m, r, j, k);
            lemma_seen_step(m, r, j, k);
            lemma_below_bounds(m, n, 0, k as nat, c as nat);
            assert(seen(m, n, 0, k) == in_rows(m, n, k));
        } else if c < k {
            lemma_seen_grows(m, r, j, c);
            lemma_seen_step(m, r, j, c);
            lemma_below_bounds(m, n, 0, c as nat, k as nat);
            assert(seen(m, n, 0, c) == in_rows(m, n, c));
        }
    }
    lemma_seen_grows(m, r, j, k);
    lemma_seen_step(m, r, j, k);
    lemma_below_bounds(m, n, 0, k as nat, m.num_cols as nat);
    assert(seen(m, n, 0, k) == in_rows(m, n, k));
    assert forall|t: int| 0 <= t < len implies #[trigger] f(t) == g(t) by {
        assert(start + t < rows.len());
    }
    lemma_parity_ext(len, f, g);
    let h = is_column(m.rows@[q]@, k);
    assert(column_parity(start, len, rows, q) == parity(len, f));
    assert(column_parity(start, len, rows1, q) == parity(len, g));
    assert(column_parity(start, len + 1, rows1, q) == parity(len + 1, g));
    if q == r {
        assert(parity(j + 1, h) == (parity(j, h) != h(j as int)));
        assert(h(j as int) == (k == c));
        assert(parity(0, h) == false);
        assert(seen_entry(m, r, j, q, k) == parity(j, h));
        assert(seen_entry(m, r, j + 1, q, k) == parity(j + 1, h));
    } else {
        assert(seen_entry(m, r, j, q, k) == seen_entry(m, r, j + 1, q, k));
    }
    if k == c {
        assert(next1[k] - col_ptr[k] == len + 1);
        assert(parity(len + 1, g) == (parity(len, g) != g(len as int)));
        assert(rows1[start + len] == r as u32);
        if q < r {
            assert(!g(len as int));
        } else if q > r {
            assert(!g(len as int));
        }
    } else {
        assert(next1[k] == next[k]);
    }
}

/// `Σ_t v[list[t]]`, by the elements of the list: each counts as often as it
/// is listed, and what is listed twice cancels.
proof fn lemma_listed_sum(n: nat, list: spec_fn(int) -> int, v: Seq<F128>)
    requires
        forall|t: int| 0 <= t < n ==> 0 <= #[trigger] list(t) < v.len(),
    ensures
        sum(n, |t: int| v[list(t)]) == sum(
            v.len(),
            |r: int| v[r] * bit_value(parity(n, |t: int| list(t) == r)),
        ),
    decreases n,
{
    let lhs = |t: int| v[list(t)];
    let total = |r: int| v[r] * bit_value(parity(n, |t: int| list(t) == r));
    if n == 0 {
        assert forall|r: int| 0 <= r < v.len() implies #[trigger] total(r) == F128::zero() by {
            lemma_mul_units(v[r]);
        }
        lemma_sum_zero(v.len(), total);
    } else {
        let p = (n - 1) as nat;
        lemma_listed_sum(p, list, v);
        let prev = |r: int| v[r] * bit_value(parity(p, |t: int| list(t) == r));
        let at = list(p as int);
        let fv = |r: int| v[r];
        let last = |r: int| bit_value(at == r) * fv(r);
        lemma_sum_add(v.len(), prev, last);
        let both = |r: int| prev(r) + last(r);
        assert forall|r: int| 0 <= r < v.len() implies #[trigger] total(r) == both(r) by {
            let h = |t: int| list(t) == r;
            assert(parity(n, h) == (parity(p, h) != h(p as int)));
            lemma_bit_value_xor(parity(p, h), h(p as int));
            lemma_mul_distributes(v[r], bit_value(parity(p, h)), bit_value(h(p as int)));
            lemma_mul_commutes(v[r], bit_value(h(p as int)));
        }
        lemma_sum_ext(v.len(), total, both);
        assert(0 <= list(p as int) < v.len());
        lemma_one_term(v.len(), at, fv);
        assert(lhs(p as int) == fv(at));
    }
}

/// The sum of the weights of the rows of column `c`.
fn column_sum(col_ptr: &Vec<u32>, rows: &Vec<u32>, weights: &[F128], c: usize) -> (s: F128)
    requires
        csc_wf(weights@.len() as int, col_ptr@, rows@),
        c < weights@.len(),
    ensures
        s == sum(
            weights@.len(),
            |r: int| weights@[r] * bit_value(csc_entry(col_ptr@, rows@, r, c as int)),
        ),
{
    let ghost n = weights@.len();
    let n_weights: usize = weights.len();
    assert(col_ptr@[c as int] <= col_ptr@[c + 1]);
    assert(col_ptr@[c + 1] <= rows@.len());
    let (lo, hi) = (col_ptr[c] as usize, col_ptr[c + 1] as usize);
    let ghost list = |t: int| rows@[lo + t] as int;
    let ghost f = |t: int| weights@[list(t)];
    let mut s = F128::zero();
    let mut t: usize = lo;
    while t < hi
        invariant
            lo <= t <= hi,
            hi <= rows@.len(),
            n == weights@.len(),
            forall|t: int| 0 <= t < rows@.len() ==> (#[trigger] rows@[t]) < n,
            list == (|t: int| rows@[lo + t] as int),
            f == (|t: int| weights@[list(t)]),
            s == sum((t - lo) as nat, f),
        decreases hi - t,
    {
        assert(rows@[t as int] < n);
        assert(f(t - lo) == weights@[rows@[t as int] as int]);
        assert(sum((t + 1 - lo) as nat, f) == sum((t - lo) as nat, f) + f(t - lo));
        s = s + weights[rows[t] as usize];
        t = t + 1;
    }
    proof {
        let k = (hi - lo) as nat;
        assert forall|t: int| 0 <= t < k implies 0 <= #[trigger] list(t) < n by {
            assert(rows@[lo + t] < n);
        }
        lemma_listed_sum(k, list, weights@);
        let a = |r: int| weights@[r] * bit_value(parity(k, |t: int| list(t) == r));
        let b = |r: int| weights@[r] * bit_value(csc_entry(col_ptr@, rows@, r, c as int));
        assert forall|r: int| 0 <= r < n implies #[trigger] a(r) == b(r) by {
            lemma_parity_ext(
                k,
                |t: int| list(t) == r,
                is_row(lo as int, rows@, r),
            );
        }
        lemma_sum_ext(n, a, b);
    }
    s
}

impl CscCircuit {
    pub fn from_matrices(a_0: &SparseBinaryMatrix, b_0: &SparseBinaryMatrix) -> (out: Self)
        requires
            a_0.square(a_0.num_cols as nat),
            b_0.square(a_0.num_cols as nat),
            a_0.num_cols <= u32::MAX,
            a_0.num_cols < usize::MAX,
            a_0.nonzeros(a_0.num_rows as nat) <= u32::MAX,
            b_0.nonzeros(b_0.num_rows as nat) <= u32::MAX,
        ensures
            out.wf(),
            out.side() == a_0.num_cols,
            forall|r: int, c: int|
                0 <= r < a_0.num_rows && 0 <= c < a_0.num_cols ==> #[trigger] out.a_entry(r, c)
                    == a_0.entry(r, c),
            forall|r: int, c: int|
                0 <= r < a_0.num_rows && 0 <= c < a_0.num_cols ==> #[trigger] out.b_entry(r, c)
                    == b_0.entry(r, c),
            out.pin() == None::<usize>,
    {
        let (a_col_ptr, a_rows) = csc_from_rows(a_0);
        let (b_col_ptr, b_rows) = csc_from_rows(b_0);
        Self { n_cols: a_0.num_cols, a_col_ptr, a_rows, b_col_ptr, b_rows, const_pin: None }
    }

    /// Set the constant-wire pin column.
    pub fn with_const_pin(self, const_pin: Option<usize>) -> (r: Self)
        ensures
            r.wf() == self.wf(),
            r.side() == self.side(),
            forall|i: int, c: int| #[trigger] r.a_entry(i, c) == self.a_entry(i, c),
            forall|i: int, c: int| #[trigger] r.b_entry(i, c) == self.b_entry(i, c),
            r.pin() == const_pin,
    {
        Self {
            n_cols: self.n_cols,
            a_col_ptr: self.a_col_ptr,
            a_rows: self.a_rows,
            b_col_ptr: self.b_col_ptr,
            b_rows: self.b_rows,
            const_pin,
        }
    }
}

impl LincheckCircuit for CscCircuit {
    closed spec fn wf(&self) -> bool {
        &&& csc_wf(self.n_cols as int, self.a_col_ptr@, self.a_rows@)
        &&& csc_wf(self.n_cols as int, self.b_col_ptr@, self.b_rows@)
    }

    closed spec fn side(&self) -> nat {
        self.n_cols as nat
    }

    closed spec fn a_entry(&self, r: int, c: int) -> bool {
        csc_entry(self.a_col_ptr@, self.a_rows@, r, c)
    }

    closed spec fn b_entry(&self, r: int, c: int) -> bool {
        csc_entry(self.b_col_ptr@, self.b_rows@, r, c)
    }

    closed spec fn pin(&self) -> Option<usize> {
        self.const_pin
    }

    fn n_cols(&self) -> (n: usize) {
        self.n_cols
    }

    fn const_pin_col(&self) -> (p: Option<usize>) {
        self.const_pin
    }

    fn fold_alpha_batched(&self, alpha: F128, eq_inner: &[F128]) -> (out: Vec<F128>) {
        let n: usize = self.n_cols;
        let mut out: Vec<F128> = Vec::with_capacity(n);
        let mut c: usize = 0;
        while c < n
            invariant
                c <= n,
                n == self.n_cols,
                n == eq_inner@.len(),
                self.wf(),
                out@.len() == c,
                forall|q: int|
                    0 <= q < c ==> #[trigger] out@[q] == alpha * sum(
                        self.side(),
                        |r: int| eq_inner@[r] * bit_value(self.a_entry(r, q)),
                    ) + sum(self.side(), |r: int| eq_inner@[r] * bit_value(self.b_entry(r, q))),
            decreases n - c,
        {
            let sa = column_sum(&self.a_col_ptr, &self.a_rows, eq_inner, c);
            let sb = column_sum(&self.b_col_ptr, &self.b_rows, eq_inner, c);
            proof {
                lemma_sum_ext(
                    n as nat,
                    |r: int|
                        eq_inner@[r] * bit_value(
                            csc_entry(self.a_col_ptr@, self.a_rows@, r, c as int),
                        ),
                    |r: int| eq_inner@[r] * bit_value(self.a_entry(r, c as int)),
                );
                lemma_sum_ext(
                    n as nat,
                    |r: int|
                        eq_inner@[r] * bit_value(
                            csc_entry(self.b_col_ptr@, self.b_rows@, r, c as int),
                        ),
                    |r: int| eq_inner@[r] * bit_value(self.b_entry(r, c as int)),
                );
            }
            out.push(alpha * sa + sb);
            c = c + 1;
        }
        out
    }
}

} // verus!
