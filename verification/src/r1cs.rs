//! Block-diagonal R1CS over GF(2).
//!
//! The standard R1CS is `(A·z) ⊙ (B·z) ⊕ (C·z) = 0`. We fix `C = I` (the
//! circuit-R1CS shape `(A·z) ⊙ (B·z) = z`), so the c-claim emitted by
//! zerocheck is already a `z`-claim — no transformation needed downstream.
//!
//! We further specialize to **block-diagonal `A` and `B`**:
//!   `A = I_{2^n_log} ⊗ A_0`, etc. The base matrices are `k × k` sparse
//! boolean (`k = 2^k_log`). `C_0 = I_k` is implicit (we still carry the
//! materialized `c_0` matrix for utilities like `satisfies`).
use vstd::arithmetic::power2::{lemma_pow2_adds, lemma_pow2_pos, pow2};
use vstd::bytes::u64_to_le_bytes;
use vstd::prelude::*;
use crate::bits::lemma_bit64_ops;
use crate::challenger::fs::le64;
use crate::field::F128;
use crate::hash::{blake3_fed, blake3_finalize, blake3_hash, blake3_new, blake3_update, Hash32};
use crate::index::pow2_usize;
use crate::lincheck::circuit::{CscCircuit, LincheckCircuit, SparseMatrixCircuit};
use crate::pcs::pack::{lemma_element_extensional, packed_bit, unpacked};

pub mod laws;
pub mod packed;

pub use packed::apply_block_diag_packed;

verus! {

/// Sparse boolean matrix. `rows[i]` lists the column indices where the entry is 1;
/// a column listed twice cancels out.
#[derive(Clone, Debug)]
pub struct SparseBinaryMatrix {
    pub num_rows: usize,
    pub num_cols: usize,
    pub rows: Vec<Vec<usize>>,
}

/// Block-diagonal R1CS instance.
///
/// Total witness length: `N = 2^m = 2^k_log · 2^n_log`.
/// Base matrices `A_0`, `B_0`, `C_0` are each `k × k` with `k = 2^k_log`.
///
/// `k_skip` is the zerocheck's univariate-skip dimension (`k_skip ≤ k_log`).
/// It defines how the m-dim claim point is laid out in the protocol: one
/// univariate F128 coord binds the LSB `k_skip` bits, `k_log − k_skip`
/// multilinear F128 coords bind the next inner bits, and `n_log` multilinear
/// F128 coords bind the outer bits.
#[derive(Clone, Debug)]
pub struct BlockR1cs {
    pub m: usize,
    pub k_log: usize,
    pub k_skip: usize,
    /// Useful bits per block: rows `[0, useful_bits)` of each block carry real
    /// witness data; rows `[useful_bits, 2^k_log)` are zero padding (and have
    /// empty rows in `a_0/b_0`).
    pub useful_bits: usize,
    pub a_0: SparseBinaryMatrix,
    pub b_0: SparseBinaryMatrix,
    pub c_0: SparseBinaryMatrix,
    /// Column of a constant-one wire to pin to 1 across all blocks, or `None`.
    /// Drives the lincheck constant-wire pin for matrix-based encoders whose
    /// circuit is built from these matrices (via
    /// [`Self::csc_lincheck_circuit`]). Walker-based encoders set this `None`
    /// and carry the pin on their own `LincheckCircuit`.
    pub const_pin: Option<usize>,
}

/// The circuit stands for the matrices of the instance and pins its wire.
pub open spec fn is_circuit_of<C: LincheckCircuit>(circuit: &C, r: BlockR1cs) -> bool {
    &&& circuit.wf()
    &&& circuit.side() == r.a_0.num_cols
    &&& forall|i: int, c: int|
        0 <= i < r.a_0.num_cols && 0 <= c < r.a_0.num_cols ==> #[trigger] circuit.a_entry(i, c)
            == r.a_0.entry(i, c)
    &&& forall|i: int, c: int|
        0 <= i < r.a_0.num_cols && 0 <= c < r.a_0.num_cols ==> #[trigger] circuit.b_entry(i, c)
            == r.b_0.entry(i, c)
    &&& circuit.pin() == r.const_pin
}

/// `f(0) ⊕ f(1) ⊕ … ⊕ f(n − 1)`.
pub open spec fn parity(n: nat, f: spec_fn(int) -> bool) -> bool
    decreases n,
{
    if n == 0 {
        false
    } else {
        parity((n - 1) as nat, f) != f(n - 1)
    }
}

pub proof fn lemma_parity_ext(n: nat, f: spec_fn(int) -> bool, g: spec_fn(int) -> bool)
    requires
        forall|i: int| 0 <= i < n ==> #[trigger] f(i) == g(i),
    ensures
        parity(n, f) == parity(n, g),
    decreases n,
{
    if n > 0 {
        lemma_parity_ext((n - 1) as nat, f, g);
        assert(f(n - 1) == g(n - 1));
    }
}

impl SparseBinaryMatrix {
    /// Every row is there, and its columns are those of the matrix.
    pub open spec fn wf(&self) -> bool {
        &&& self.rows@.len() == self.num_rows
        &&& forall|r: int, j: int|
            0 <= r < self.rows@.len() && 0 <= j < self.rows@[r]@.len()
                ==> #[trigger] self.rows@[r]@[j] < self.num_cols
    }

    /// A `k × k` matrix.
    pub open spec fn square(&self, k: nat) -> bool {
        &&& self.wf()
        &&& self.num_rows == k
        &&& self.num_cols == k
    }

    /// The entry in row `r` and column `c`.
    pub open spec fn entry(&self, r: int, c: int) -> bool {
        parity(self.rows@[r]@.len(), |j: int| self.rows@[r]@[j] == c)
    }

    /// Bit `r` of the product of the matrix with `z`.
    pub open spec fn product_bit(&self, z: Seq<bool>, r: int) -> bool {
        parity(self.rows@[r]@.len(), |j: int| z[self.rows@[r]@[j] as int])
    }

    /// Bit `i` of the product of `I ⊗ M` with `z`, for blocks of `k` bits.
    pub open spec fn block_bit(&self, z: Seq<bool>, k: int, i: int) -> bool {
        parity(self.rows@[i % k]@.len(), |j: int| z[(i / k) * k + self.rows@[i % k]@[j]])
    }

    /// The product of `I ⊗ M` with `z`, for blocks of `k` bits.
    pub open spec fn block_product(&self, z: Seq<bool>, k: int) -> Seq<bool> {
        Seq::new(z.len(), |i: int| self.block_bit(z, k, i))
    }

    /// The number of nonzeros in the first `n` rows.
    pub open spec fn nonzeros(&self, n: nat) -> nat
        decreases n,
    {
        if n == 0 {
            0
        } else {
            self.nonzeros((n - 1) as nat) + self.rows@[n - 1]@.len()
        }
    }

    /// The matrix as the digest reads it.
    pub open spec fn bytes(&self) -> Seq<u8> {
        le64(self.num_rows as u64) + le64(self.num_cols as u64) + rows_bytes(self.rows@)
    }
}

/// The rows, each with its length first.
pub open spec fn rows_bytes(rows: Seq<Vec<usize>>) -> Seq<u8>
    decreases rows.len(),
{
    if rows.len() == 0 {
        Seq::empty()
    } else {
        rows_bytes(rows.drop_last()) + row_bytes(rows.last()@)
    }
}

pub open spec fn row_bytes(row: Seq<usize>) -> Seq<u8> {
    le64(row.len() as u64) + columns_bytes(row)
}

pub open spec fn columns_bytes(row: Seq<usize>) -> Seq<u8>
    decreases row.len(),
{
    if row.len() == 0 {
        Seq::empty()
    } else {
        columns_bytes(row.drop_last()) + le64(row.last() as u64)
    }
}

/// `flock-r1cs-stmt-v0`.
pub open spec fn statement_label() -> Seq<u8> {
    seq![
        0x66u8, 0x6c, 0x6f, 0x63, 0x6b, 0x2d, 0x72, 0x31, 0x63, 0x73, 0x2d, 0x73, 0x74, 0x6d, 0x74,
        0x2d, 0x76, 0x30,
    ]
}

impl BlockR1cs {
    /// The dimensions fit together and the base matrices are `k × k`.
    pub open spec fn wf(&self) -> bool {
        &&& self.k_log <= self.m
        &&& pow2(self.m as nat) <= usize::MAX
        &&& self.a_0.square(pow2(self.k_log as nat))
        &&& self.b_0.square(pow2(self.k_log as nat))
        &&& self.c_0.square(pow2(self.k_log as nat))
    }

    /// `(A·z) ⊙ (B·z) = C·z`.
    pub open spec fn satisfied_by(&self, z: Seq<bool>) -> bool {
        let k = pow2(self.k_log as nat) as int;
        forall|i: int|
            0 <= i < z.len() ==> (self.a_0.block_bit(z, k, i) && self.b_0.block_bit(z, k, i))
                == #[trigger] self.c_0.block_bit(z, k, i)
    }

    /// The instance as the digest reads it.
    pub open spec fn statement_bytes(&self) -> Seq<u8> {
        statement_label() + le64(self.m as u64) + le64(self.k_log as u64) + le64(
            self.k_skip as u64,
        ) + self.a_0.bytes() + self.b_0.bytes() + self.c_0.bytes()
    }

    /// Number of A_0-blocks tiled diagonally = 2^n_log.
    pub fn n_outer(&self) -> (r: usize)
        requires
            self.k_log <= self.m,
            pow2((self.m - self.k_log) as nat) <= usize::MAX,
        ensures
            r == pow2((self.m - self.k_log) as nat),
    {
        pow2_usize(self.n_log())
    }

    /// Outer-dimension log count = m − k_log.
    pub fn n_log(&self) -> (r: usize)
        requires
            self.k_log <= self.m,
        ensures
            r == self.m - self.k_log,
    {
        self.m - self.k_log
    }

    /// Inner dimension = 2^k_log = base-matrix side.
    pub fn k(&self) -> (r: usize)
        requires
            pow2(self.k_log as nat) <= usize::MAX,
        ensures
            r == pow2(self.k_log as nat),
    {
        pow2_usize(self.k_log)
    }

    /// Total witness length = 2^m.
    pub fn n(&self) -> (r: usize)
        requires
            pow2(self.m as nat) <= usize::MAX,
        ensures
            r == pow2(self.m as nat),
    {
        pow2_usize(self.m)
    }

    /// Whether `c_0` is exactly the identity matrix — the circuit-R1CS
    /// convention (`C = I` ⇒ `c = C·z = z`). The generic provers use this to
    /// alias `c` to `z` instead of running a full block-diagonal apply.
    pub fn c0_is_identity(&self) -> (r: bool)
        requires
            pow2(self.k_log as nat) <= usize::MAX,
        ensures
            r == ({
                let k = pow2(self.k_log as nat);
                &&& self.c_0.num_rows == k
                &&& self.c_0.num_cols == k
                &&& self.c_0.rows@.len() == k
                &&& forall|i: int|
                    0 <= i < k ==> (#[trigger] self.c_0.rows@[i])@ == seq![i as usize]
            }),
    {
        let n: usize = self.k();
        if self.c_0.num_rows != n || self.c_0.num_cols != n || self.c_0.rows.len() != n {
            return false;
        }
        let mut i: usize = 0;
        while i < n
            invariant
                i <= n,
                n == pow2(self.k_log as nat),
                n == self.c_0.rows@.len(),
                forall|q: int|
                    0 <= q < i ==> (#[trigger] self.c_0.rows@[q])@ == seq![q as usize],
            decreases n - i,
        {
            let row = &self.c_0.rows[i];
            if row.len() != 1 || row[0] != i {
                assert(self.c_0.rows@[i as int]@ != seq![i as usize]);
                return false;
            }
            assert(self.c_0.rows@[i as int]@ =~= seq![i as usize]);
            i = i + 1;
        }
        true
    }

    /// `LincheckCircuit` wrapping this R1CS's sparse matrices. Per-hash setups
    /// that supply a custom circuit walker bypass this.
    pub fn sparse_lincheck_circuit(&self) -> (r: SparseMatrixCircuit<'_>)
        requires
            self.a_0.num_rows == self.b_0.num_rows,
            self.a_0.num_cols == self.b_0.num_cols,
        ensures
            *r.a_0 == self.a_0,
            *r.b_0 == self.b_0,
            r.pin() == self.const_pin,
            self.a_0.square(self.a_0.num_cols as nat) && self.b_0.square(self.a_0.num_cols as nat)
                ==> is_circuit_of(&r, *self),
    {
        SparseMatrixCircuit::new(&self.a_0, &self.b_0).with_const_pin(self.const_pin)
    }

    /// CSC-transposed `LincheckCircuit` over this R1CS's sparse matrices —
    /// the fastest `fold_alpha_batched` when `a_0`/`b_0` are materialized
    /// (gather per column instead of scatter per row). Call once at setup to
    /// keep the build cost (one pass over the nonzeros) out of the prove path:
    /// the circuit is not kept, each call builds one, and all of them fold alike.
    pub fn csc_lincheck_circuit(&self) -> (r: CscCircuit)
        requires
            self.a_0.square(self.a_0.num_cols as nat),
            self.b_0.square(self.a_0.num_cols as nat),
            self.a_0.num_cols <= u32::MAX,
            self.a_0.num_cols < usize::MAX,
            self.a_0.nonzeros(self.a_0.num_rows as nat) <= u32::MAX,
            self.b_0.nonzeros(self.b_0.num_rows as nat) <= u32::MAX,
        ensures
            is_circuit_of(&r, *self),
    {
        CscCircuit::from_matrices(&self.a_0, &self.b_0).with_const_pin(self.const_pin)
    }

    /// Apply `A = I_{2^n_log} ⊗ A_0` to a Boolean witness `z`. Returns
    /// `a = A · z` ∈ GF(2)^N (length 2^m).
    pub fn apply_a(&self, z: &[bool]) -> (out: Vec<bool>)
        requires
            pow2(self.k_log as nat) <= usize::MAX,
            self.a_0.square(pow2(self.k_log as nat)),
            z@.len() % pow2(self.k_log as nat) == 0,
        ensures
            out@ == self.a_0.block_product(z@, pow2(self.k_log as nat) as int),
    {
        apply_block_diag(&self.a_0, z, self.k_log)
    }

    /// Apply `B = I_{2^n_log} ⊗ B_0` to `z`.
    pub fn apply_b(&self, z: &[bool]) -> (out: Vec<bool>)
        requires
            pow2(self.k_log as nat) <= usize::MAX,
            self.b_0.square(pow2(self.k_log as nat)),
            z@.len() % pow2(self.k_log as nat) == 0,
        ensures
            out@ == self.b_0.block_product(z@, pow2(self.k_log as nat) as int),
    {
        apply_block_diag(&self.b_0, z, self.k_log)
    }

    /// Apply `C = I_{2^n_log} ⊗ C_0` to `z`.
    pub fn apply_c(&self, z: &[bool]) -> (out: Vec<bool>)
        requires
            pow2(self.k_log as nat) <= usize::MAX,
            self.c_0.square(pow2(self.k_log as nat)),
            z@.len() % pow2(self.k_log as nat) == 0,
        ensures
            out@ == self.c_0.block_product(z@, pow2(self.k_log as nat) as int),
    {
        apply_block_diag(&self.c_0, z, self.k_log)
    }

    /// Check whether `(A·z) ⊙ (B·z) = C·z` (over GF(2), Hadamard product).
    pub fn satisfies(&self, z: &[bool]) -> (ok: bool)
        requires
            self.wf(),
            z@.len() == pow2(self.m as nat),
        ensures
            ok == self.satisfied_by(z@),
            ok == laws::all_gates_hold(*self, z@),
    {
        proof {
            lemma_blocks(self.m as nat, self.k_log as nat);
            laws::lemma_satisfied_row_by_row(*self, z@);
        }
        let ghost k = pow2(self.k_log as nat) as int;
        let a = self.apply_a(z);
        let b = self.apply_b(z);
        let c = self.apply_c(z);
        let n: usize = z.len();
        let mut i: usize = 0;
        while i < n
            invariant
                i <= n,
                n == z@.len(),
                k == pow2(self.k_log as nat),
                self.satisfied_by(z@) == laws::all_gates_hold(*self, z@),
                a@ == self.a_0.block_product(z@, k),
                b@ == self.b_0.block_product(z@, k),
                c@ == self.c_0.block_product(z@, k),
                forall|q: int|
                    0 <= q < i ==> (self.a_0.block_bit(z@, k, q) && self.b_0.block_bit(z@, k, q))
                        == #[trigger] self.c_0.block_bit(z@, k, q),
            decreases n - i,
        {
            if (a[i] && b[i]) != c[i] {
                assert((self.a_0.block_bit(z@, k, i as int) && self.b_0.block_bit(z@, k, i as int))
                    != self.c_0.block_bit(z@, k, i as int));
                return false;
            }
            i = i + 1;
        }
        true
    }

    // -----------------------------------------------------------------------
    // Packed variants: operate on F_{2^128}-packed witnesses (polynomial-basis
    // bit layout: bit r of z_packed[i] = logical bit i·128 + r). This is the
    // canonical witness form throughout the protocol.
    // -----------------------------------------------------------------------

    /// Packed `a = A · z` ∈ GF(2)^N. Output is F_{2^128}-packed (length 2^(m-7)).
    pub fn apply_a_packed(&self, z_packed: &[F128]) -> (out: Vec<F128>)
        requires
            7 <= self.m,
            self.k_log <= self.m,
            pow2(self.m as nat) <= usize::MAX,
            self.a_0.square(pow2(self.k_log as nat)),
            self.k_log >= 7 ==> self.a_0.num_cols <= u32::MAX && self.a_0.nonzeros(
                self.a_0.num_rows as nat,
            ) <= u32::MAX,
            z_packed@.len() == pow2((self.m - 7) as nat),
        ensures
            out@.len() == z_packed@.len(),
            unpacked(out@) == self.a_0.block_product(
                unpacked(z_packed@),
                pow2(self.k_log as nat) as int,
            ),
    {
        apply_block_diag_packed(&self.a_0, z_packed, self.m, self.k_log)
    }

    /// Packed `b = B · z`.
    pub fn apply_b_packed(&self, z_packed: &[F128]) -> (out: Vec<F128>)
        requires
            7 <= self.m,
            self.k_log <= self.m,
            pow2(self.m as nat) <= usize::MAX,
            self.b_0.square(pow2(self.k_log as nat)),
            self.k_log >= 7 ==> self.b_0.num_cols <= u32::MAX && self.b_0.nonzeros(
                self.b_0.num_rows as nat,
            ) <= u32::MAX,
            z_packed@.len() == pow2((self.m - 7) as nat),
        ensures
            out@.len() == z_packed@.len(),
            unpacked(out@) == self.b_0.block_product(
                unpacked(z_packed@),
                pow2(self.k_log as nat) as int,
            ),
    {
        apply_block_diag_packed(&self.b_0, z_packed, self.m, self.k_log)
    }

    /// Packed `c = C · z`.
    pub fn apply_c_packed(&self, z_packed: &[F128]) -> (out: Vec<F128>)
        requires
            7 <= self.m,
            self.k_log <= self.m,
            pow2(self.m as nat) <= usize::MAX,
            self.c_0.square(pow2(self.k_log as nat)),
            self.k_log >= 7 ==> self.c_0.num_cols <= u32::MAX && self.c_0.nonzeros(
                self.c_0.num_rows as nat,
            ) <= u32::MAX,
            z_packed@.len() == pow2((self.m - 7) as nat),
        ensures
            out@.len() == z_packed@.len(),
            unpacked(out@) == self.c_0.block_product(
                unpacked(z_packed@),
                pow2(self.k_log as nat) as int,
            ),
    {
        apply_block_diag_packed(&self.c_0, z_packed, self.m, self.k_log)
    }

    /// BLAKE3 hash of the R1CS instance (parameters + sparse matrices).
    /// Stable across runs; used to bind the Fiat-Shamir transcript to the
    /// statement being proved.
    pub fn statement_digest(&self) -> (digest: Hash32)
        ensures
            digest@ == blake3_hash(self.statement_bytes()),
    {
        let label: [u8; 18] = [
            0x66, 0x6c, 0x6f, 0x63, 0x6b, 0x2d, 0x72, 0x31, 0x63, 0x73, 0x2d, 0x73, 0x74, 0x6d,
            0x74, 0x2d, 0x76, 0x30,
        ];
        let mut h = blake3_new();
        blake3_update(&mut h, &label);
        assert(label@ =~= statement_label());
        assert(blake3_fed(h) =~= statement_label());
        blake3_update(&mut h, &u64_to_le_bytes(self.m as u64));
        blake3_update(&mut h, &u64_to_le_bytes(self.k_log as u64));
        blake3_update(&mut h, &u64_to_le_bytes(self.k_skip as u64));
        absorb_matrix(&mut h, &self.a_0);
        absorb_matrix(&mut h, &self.b_0);
        absorb_matrix(&mut h, &self.c_0);
        blake3_finalize(&h)
    }

    /// Check the R1CS constraint `(A·z) ⊙ (B·z) = C·z` over GF(2) on a packed
    /// witness. Per-element check is `a & b == c` bitwise.
    pub fn satisfies_packed(&self, z_packed: &[F128]) -> (ok: bool)
        requires
            self.wf(),
            7 <= self.m,
            self.k_log >= 7 ==> {
                &&& pow2(self.k_log as nat) <= u32::MAX
                &&& self.a_0.nonzeros(self.a_0.num_rows as nat) <= u32::MAX
                &&& self.b_0.nonzeros(self.b_0.num_rows as nat) <= u32::MAX
                &&& self.c_0.nonzeros(self.c_0.num_rows as nat) <= u32::MAX
            },
            z_packed@.len() == pow2((self.m - 7) as nat),
        ensures
            ok == self.satisfied_by(unpacked(z_packed@)),
            ok == laws::all_gates_hold(*self, unpacked(z_packed@)),
    {
        let ghost k = pow2(self.k_log as nat) as int;
        let ghost z = unpacked(z_packed@);
        proof {
            crate::pcs::pack::lemma_packed_len(self.m as nat);
            laws::lemma_satisfied_row_by_row(*self, z);
        }
        let a = self.apply_a_packed(z_packed);
        let b = self.apply_b_packed(z_packed);
        let c = self.apply_c_packed(z_packed);
        let n: usize = z_packed.len();
        let mut i: usize = 0;
        while i < n
            invariant
                i <= n,
                n == z_packed@.len(),
                n == a@.len(),
                n == b@.len(),
                n == c@.len(),
                z == unpacked(z_packed@),
                k == pow2(self.k_log as nat),
                self.satisfied_by(z) == laws::all_gates_hold(*self, z),
                unpacked(a@) == self.a_0.block_product(z, k),
                unpacked(b@) == self.b_0.block_product(z, k),
                unpacked(c@) == self.c_0.block_product(z, k),
                forall|q: int|
                    0 <= q < 128 * i ==> (self.a_0.block_bit(z, k, q) && self.b_0.block_bit(
                        z,
                        k,
                        q,
                    )) == #[trigger] self.c_0.block_bit(z, k, q),
            decreases n - i,
        {
            let ab = F128 { lo: a[i].lo & b[i].lo, hi: a[i].hi & b[i].hi };
            proof {
                assert forall|r: int| 0 <= r < 128 implies #[trigger] crate::pcs::pack::element_bit(
                    ab,
                    r,
                ) == (self.a_0.block_bit(z, k, 128 * i + r) && self.b_0.block_bit(
                    z,
                    k,
                    128 * i + r,
                )) by {
                    let g = 128 * i + r;
                    assert(g / 128 == i && g % 128 == r);
                    assert(unpacked(a@)[g] == packed_bit(a@, g));
                    assert(unpacked(b@)[g] == packed_bit(b@, g));
                    if r < 64 {
                        lemma_bit64_ops(a@[i as int].lo, b@[i as int].lo, r);
                    } else {
                        lemma_bit64_ops(a@[i as int].hi, b@[i as int].hi, r - 64);
                    }
                }
                assert forall|r: int| 0 <= r < 128 implies #[trigger] crate::pcs::pack::element_bit(
                    c@[i as int],
                    r,
                ) == self.c_0.block_bit(z, k, 128 * i + r) by {
                    let g = 128 * i + r;
                    assert(g / 128 == i && g % 128 == r);
                    assert(unpacked(c@)[g] == packed_bit(c@, g));
                }
            }
            if ab != c[i] {
                proof {
                    if self.satisfied_by(z) {
                        assert forall|r: int| 0 <= r < 128 implies #[trigger]
                            crate::pcs::pack::element_bit(ab, r)
                            == crate::pcs::pack::element_bit(c@[i as int], r) by {
                            assert(self.c_0.block_bit(z, k, 128 * i + r) == (self.a_0.block_bit(
                                z,
                                k,
                                128 * i + r,
                            ) && self.b_0.block_bit(z, k, 128 * i + r)));
                        }
                        lemma_element_extensional(ab, c@[i as int]);
                    }
                }
                return false;
            }
            proof {
                assert forall|q: int| 0 <= q < 128 * (i + 1) implies (self.a_0.block_bit(z, k, q)
                    && self.b_0.block_bit(z, k, q)) == #[trigger] self.c_0.block_bit(z, k, q) by {
                    if q >= 128 * i {
                        let r = q - 128 * i;
                        assert(crate::pcs::pack::element_bit(ab, r)
                            == crate::pcs::pack::element_bit(c@[i as int], r));
                    }
                }
            }
            i = i + 1;
        }
        true
    }
}

/// Length-prefixed absorption of a sparse matrix into a BLAKE3 hasher.
/// `(num_rows, num_cols, [(row_len, col_indices...) for each row])`, all
/// little-endian u64, so two matrices with different shapes/contents always
/// produce different states.
fn absorb_matrix(h: &mut blake3::Hasher, m: &SparseBinaryMatrix)
    ensures
        blake3_fed(*final(h)) == blake3_fed(*old(h)) + m.bytes(),
{
    let ghost start = blake3_fed(*h);
    blake3_update(h, &u64_to_le_bytes(m.num_rows as u64));
    blake3_update(h, &u64_to_le_bytes(m.num_cols as u64));
    let ghost head = le64(m.num_rows as u64) + le64(m.num_cols as u64);
    proof {
        assert(m.rows@.take(0) =~= Seq::<Vec<usize>>::empty());
        assert(blake3_fed(*h) =~= start + (head + rows_bytes(m.rows@.take(0))));
    }
    let n: usize = m.rows.len();
    let mut r: usize = 0;
    while r < n
        invariant
            r <= n,
            n == m.rows@.len(),
            blake3_fed(*h) == start + (head + rows_bytes(m.rows@.take(r as int))),
        decreases n - r,
    {
        let row = &m.rows[r];
        let ghost before = blake3_fed(*h);
        blake3_update(h, &u64_to_le_bytes(row.len() as u64));
        let ghost lead = le64(row@.len() as u64);
        proof {
            assert(row@.take(0) =~= Seq::<usize>::empty());
            assert(blake3_fed(*h) =~= before + (lead + columns_bytes(row@.take(0))));
        }
        let len: usize = row.len();
        let mut j: usize = 0;
        while j < len
            invariant
                j <= len,
                len == row@.len(),
                blake3_fed(*h) == before + (lead + columns_bytes(row@.take(j as int))),
            decreases len - j,
        {
            blake3_update(h, &u64_to_le_bytes(row[j] as u64));
            proof {
                assert(row@.take(j + 1).drop_last() =~= row@.take(j as int));
                assert(blake3_fed(*h) =~= before + (lead + columns_bytes(row@.take(j + 1))));
            }
            j = j + 1;
        }
        proof {
            assert(row@.take(len as int) =~= row@);
            assert(m.rows@.take(r + 1).drop_last() =~= m.rows@.take(r as int));
            assert(blake3_fed(*h) =~= start + (head + rows_bytes(m.rows@.take(r + 1))));
        }
        r = r + 1;
    }
    proof {
        assert(m.rows@.take(n as int) =~= m.rows@);
    }
}

pub proof fn lemma_blocks(m: nat, k_log: nat)
    requires
        k_log <= m,
    ensures
        pow2(m) == pow2(k_log) * pow2((m - k_log) as nat),
        pow2(m) % pow2(k_log) == 0,
        pow2(m) / pow2(k_log) == pow2((m - k_log) as nat),
        pow2(k_log) >= 1,
        pow2((m - k_log) as nat) >= 1,
        pow2(k_log) <= pow2(m),
        pow2((m - k_log) as nat) <= pow2(m),
{
    let (k, n) = (pow2(k_log) as int, pow2((m - k_log) as nat) as int);
    lemma_pow2_adds(k_log, (m - k_log) as nat);
    lemma_pow2_pos(k_log);
    lemma_pow2_pos((m - k_log) as nat);
    vstd::arithmetic::div_mod::lemma_fundamental_div_mod_converse(k * n, k, n, 0);
    assert(k <= k * n && n <= k * n) by (nonlinear_arith)
        requires
            k >= 1,
            n >= 1,
    ;
}

/// The position of bit `r` of block `b` among blocks of `k` bits.
pub proof fn lemma_block_position(b: int, k: int, r: int)
    requires
        0 <= r < k,
        0 <= b,
    ensures
        (b * k + r) / k == b,
        (b * k + r) % k == r,
        0 <= b * k,
{
    vstd::arithmetic::div_mod::lemma_fundamental_div_mod_converse(b * k + r, k, b, r);
    assert(0 <= b * k) by (nonlinear_arith)
        requires
            0 <= b,
            0 <= k,
    ;
}

/// Block-diagonal `(I_{2^n_log} ⊗ M_0) · z` over GF(2).
pub fn apply_block_diag(m_0: &SparseBinaryMatrix, z: &[bool], k_log: usize) -> (out: Vec<bool>)
    requires
        pow2(k_log as nat) <= usize::MAX,
        m_0.square(pow2(k_log as nat)),
        z@.len() % pow2(k_log as nat) == 0,
    ensures
        out@ == m_0.block_product(z@, pow2(k_log as nat) as int),
{
    let k: usize = pow2_usize(k_log);
    let n: usize = z.len();
    let n_outer: usize = n / k;
    proof {
        vstd::arithmetic::div_mod::lemma_fundamental_div_mod(n as int, k as int);
    }
    let mut out: Vec<bool> = Vec::with_capacity(n);
    let mut i_outer: usize = 0;
    while i_outer < n_outer
        invariant
            i_outer <= n_outer,
            n == z@.len(),
            n == k * n_outer,
            k > 0,
            m_0.square(k as nat),
            out@.len() == i_outer * k,
            forall|i: int| 0 <= i < out@.len() ==> out@[i] == #[trigger] m_0.block_bit(z@, k as int, i),
        decreases n_outer - i_outer,
    {
        let ghost done = out@;
        proof {
            assert(i_outer * k + k <= k * n_outer) by (nonlinear_arith)
                requires
                    i_outer + 1 <= n_outer,
                    k > 0,
            ;
            assert(0 <= i_outer * k) by (nonlinear_arith);
            assert((i_outer + 1) * k == i_outer * k + k) by (nonlinear_arith);
        }
        let z_block = vstd::slice::slice_subrange(z, i_outer * k, i_outer * k + k);
        let mut a_block = matrix_vector_product(m_0, z_block);
        proof {
            assert forall|i: int| 0 <= i < done.len() + k implies (done + a_block@)[i]
                == #[trigger] m_0.block_bit(z@, k as int, i) by {
                if i >= done.len() {
                    let r = i - done.len();
                    lemma_block_position(i_outer as int, k as int, r);
                    let row = m_0.rows@[r]@;
                    let f = |j: int| z_block@[row[j] as int];
                    let g = |j: int| z@[(i / (k as int)) * k + row[j]];
                    assert forall|j: int| 0 <= j < row.len() implies #[trigger] f(j) == g(j) by {
                        assert(m_0.rows@[r]@[j] < m_0.num_cols);
                    }
                    lemma_parity_ext(row.len(), f, g);
                } else {
                    assert(done[i] == m_0.block_bit(z@, k as int, i));
                }
            }
        }
        out.append(&mut a_block);
        i_outer = i_outer + 1;
    }
    assert(n_outer * k == k * n_outer) by (nonlinear_arith);
    assert(out@ =~= m_0.block_product(z@, k as int));
    out
}

/// `out[i] = ⊕_{j: M[i, j] = 1} z[j]` (over GF(2)).
fn matrix_vector_product(m: &SparseBinaryMatrix, z: &[bool]) -> (out: Vec<bool>)
    requires
        m.wf(),
        z@.len() == m.num_cols,
    ensures
        out@.len() == m.num_rows,
        forall|r: int| 0 <= r < m.num_rows ==> #[trigger] out@[r] == m.product_bit(z@, r),
{
    let n: usize = m.rows.len();
    let mut out: Vec<bool> = Vec::with_capacity(n);
    let mut r: usize = 0;
    while r < n
        invariant
            r <= n,
            n == m.rows@.len(),
            m.wf(),
            z@.len() == m.num_cols,
            out@.len() == r,
            forall|q: int| 0 <= q < r ==> #[trigger] out@[q] == m.product_bit(z@, q),
        decreases n - r,
    {
        let row = &m.rows[r];
        let len: usize = row.len();
        let mut acc = false;
        let mut j: usize = 0;
        let ghost f = |j: int| z@[m.rows@[r as int]@[j] as int];
        while j < len
            invariant
                j <= len,
                r < n,
                n == m.rows@.len(),
                m.wf(),
                row == m.rows@[r as int],
                len == row@.len(),
                z@.len() == m.num_cols,
                f == (|j: int| z@[m.rows@[r as int]@[j] as int]),
                acc == parity(j as nat, f),
            decreases len - j,
        {
            assert(m.rows@[r as int]@[j as int] < m.num_cols);
            assert(f(j as int) == z@[row@[j as int] as int]);
            acc = acc != z[row[j]];
            j = j + 1;
        }
        out.push(acc);
        r = r + 1;
    }
    out
}

} // verus!
