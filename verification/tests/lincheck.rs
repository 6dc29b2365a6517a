//! The lincheck.
use flock_core::challenger::FsChallenger;
use flock_core::field::F128;
use flock_core::lincheck::circuit::{CscCircuit, LincheckCircuit, SparseMatrixCircuit};
use flock_core::lincheck::fold::{
    build_quirky_eq_table, pack_z_lincheck, pack_z_lincheck_from_packed, partial_fold_packed_z,
    partial_fold_packed_z_fast, partial_fold_packed_z_fast_padded, sparse_row_fold,
};
use flock_core::lincheck::protocol::{
    prove, prove_padded, prove_padded_capture_z_vec, verify, LincheckProof, QuirkyPoint, VerifyError,
};
use flock_core::lincheck::tiled::{
    partial_fold_packed_z_neon_iblock_padded, partial_fold_packed_z_neon_single,
    partial_fold_packed_z_neon_single_padded,
};
use flock_core::pcs::pack_witness;
use flock_core::r1cs::SparseBinaryMatrix;
use flock_core::zerocheck::multilinear::{build_eq_table, lagrange_weights_naive};

/// The tiled folds take eight stripes of eight at a time.
fn tiles_fit(m: usize, k_log: usize) -> bool {
    m - k_log >= 6
}

/// SplitMix64 PRNG, deterministic.
struct Rng(u64);
impl Rng {
    fn new(seed: u64) -> Self {
        Self(seed)
    }
    fn next_u64(&mut self) -> u64 {
        self.0 = self.0.wrapping_add(0x9E3779B97F4A7C15);
        let mut z = self.0;
        z = (z ^ (z >> 30)).wrapping_mul(0xBF58476D1CE4E5B9);
        z = (z ^ (z >> 27)).wrapping_mul(0x94D049BB133111EB);
        z ^ (z >> 31)
    }
    fn f128(&mut self) -> F128 {
        F128 {
            lo: self.next_u64(),
            hi: self.next_u64(),
        }
    }
    fn f128_vec(&mut self, n: usize) -> Vec<F128> {
        (0..n).map(|_| self.f128()).collect()
    }
    fn bits(&mut self, n: usize) -> Vec<bool> {
        (0..n).map(|_| self.next_u64() & 1 == 1).collect()
    }
}

/// Naive MLE evaluation: `f̂(point) = Σ_i eq(point, i) · f[i]` where i ∈
/// {0,1}^d and f[i] is given as a bool slice.
fn mle_eval_bool(f: &[bool], point: &[F128]) -> F128 {
    let d = point.len();
    assert_eq!(f.len(), 1 << d);
    let eq = build_eq_table(point);
    let mut acc = F128::zero();
    for (i, &b) in f.iter().enumerate() {
        if b {
            acc += eq[i];
        }
    }
    acc
}

/// Sample a random `QuirkyPoint` for testing: z_skip ∈ F₁₂₈,
/// x_inner_rest of length `k_log − k_skip`, x_outer of length `n_log`.
fn random_quirky_point(m: usize, k_log: usize, k_skip: usize, rng: &mut Rng) -> QuirkyPoint {
    QuirkyPoint {
        z_skip: rng.f128(),
        x_inner_rest: rng.f128_vec(k_log - k_skip),
        x_outer: rng.f128_vec(m - k_log),
    }
}

/// "Quirky MLE evaluation" of a Boolean vector `f` at a quirky point.
///
/// `ã(z_skip, x_inner_rest, x_outer) = Σ_i  f[i] · L_{i_skip}(z_skip)
///                                          · eq(x_inner_rest, i_inner_rest)
///                                          · eq(x_outer, i_outer)`
///
/// where `i = i_skip + 2^k_skip · i_inner_rest + 2^k_log · i_outer` (matches
/// the linear-LSB indexing of `f`).
fn mle_eval_bool_quirky(
    f: &[bool],
    m: usize,
    k_log: usize,
    k_skip: usize,
    point: &QuirkyPoint,
) -> F128 {
    let k_skip_dim = 1usize << k_skip;
    let inner_rest_len = k_log - k_skip;
    let inner_rest_dim = 1usize << inner_rest_len;
    let k = 1usize << k_log;
    let n_outer = 1usize << (m - k_log);
    assert_eq!(f.len(), 1 << m);

    let lambda = lagrange_weights_naive(k_skip, point.z_skip);
    let eq_rest = build_eq_table(&point.x_inner_rest);
    let eq_outer = build_eq_table(&point.x_outer);
    assert_eq!(lambda.len(), k_skip_dim);
    assert_eq!(eq_rest.len(), inner_rest_dim);
    assert_eq!(eq_outer.len(), n_outer);

    let mut acc = F128::zero();
    for i in 0..(1 << m) {
        if !f[i] {
            continue;
        }
        let i_skip = i & (k_skip_dim - 1);
        let i_inner_rest = (i >> k_skip) & (inner_rest_dim - 1);
        let i_outer = i / k;
        acc += lambda[i_skip] * eq_rest[i_inner_rest] * eq_outer[i_outer];
    }
    acc
}

/// Naive sparse matrix · bool-vector product: `out[i] = ⊕_{j: M[i,j]=1} z[j]`.
fn matrix_vector_product(m: &SparseBinaryMatrix, z: &[bool]) -> Vec<bool> {
    assert_eq!(z.len(), m.num_cols);
    m.rows
        .iter()
        .map(|row| {
            let mut acc = false;
            for &col in row {
                acc ^= z[col];
            }
            acc
        })
        .collect()
}

/// Build a block-diagonal full witness vector from a base matrix and the
/// outer dimension: full[i_inner + i_outer · k] for the i_outer-th block.
/// Used to construct `a = (I_{2^n_log} ⊗ A_0) · z` directly for tests.
fn apply_block_diag(m_0: &SparseBinaryMatrix, z: &[bool], k_log: usize) -> Vec<bool> {
    let k = 1usize << k_log;
    assert_eq!(m_0.num_rows, k);
    assert_eq!(m_0.num_cols, k);
    assert_eq!(z.len() % k, 0);
    let n_outer = z.len() / k;
    let mut out = vec![false; z.len()];
    for i_outer in 0..n_outer {
        let z_block = &z[i_outer * k..(i_outer + 1) * k];
        let a_block = matrix_vector_product(m_0, z_block);
        out[i_outer * k..(i_outer + 1) * k].copy_from_slice(&a_block);
    }
    out
}

/// Build a sparse boolean matrix with `nnz` random nonzero entries among
/// `k × k` slots. Used for tests.
fn random_sparse_matrix(k: usize, nnz: usize, rng: &mut Rng) -> SparseBinaryMatrix {
    let mut rows: Vec<Vec<usize>> = vec![Vec::new(); k];
    let mut seen = std::collections::HashSet::new();
    let mut count = 0;
    while count < nnz {
        let r = (rng.next_u64() as usize) % k;
        let c = (rng.next_u64() as usize) % k;
        if seen.insert((r, c)) {
            rows[r].push(c);
            count += 1;
        }
    }
    for row in &mut rows {
        row.sort();
    }
    SparseBinaryMatrix {
        num_rows: k,
        num_cols: k,
        rows,
    }
}

// ---- Unit tests for the kernels ----

/// `build_eq_table` produces eq(point, i) for all boolean i.
#[test]
fn eq_table_matches_direct_formula() {
    for &d in &[1usize, 2, 3, 5, 8] {
        let mut rng = Rng::new(11 + d as u64);
        let point = rng.f128_vec(d);
        let table = build_eq_table(&point);
        assert_eq!(table.len(), 1 << d);
        for i in 0..(1 << d) {
            let mut expected = F128::one();
            for j in 0..d {
                let bit = ((i >> j) & 1) as u64;
                // eq(r, bit) = (1 + r) if bit = 0 else r
                let factor = if bit == 0 {
                    F128::one() + point[j]
                } else {
                    point[j]
                };
                expected *= factor;
            }
            assert_eq!(table[i], expected, "mismatch at d={d}, i={i}");
        }
    }
}

/// `sparse_row_fold` matches a brute-force dense implementation.
#[test]
fn sparse_row_fold_matches_dense() {
    let mut rng = Rng::new(22);
    let k = 16;
    let nnz = 40;
    let matrix = random_sparse_matrix(k, nnz, &mut rng);
    let eq_table: Vec<F128> = rng.f128_vec(k);

    let got = sparse_row_fold(&matrix, &eq_table);

    // Brute force: for each col j, sum eq[i] over rows i where M[i,j] = 1.
    let mut expected = vec![F128::zero(); k];
    for (i, row) in matrix.rows.iter().enumerate() {
        for &j in row {
            expected[j] += eq_table[i];
        }
    }
    assert_eq!(got, expected);
}

/// `partial_fold_packed_z` matches the direct sum.
#[test]
fn partial_fold_matches_direct() {
    for &(m, k_log) in &[(10usize, 3), (12, 4), (14, 5), (16, 8)] {
        let mut rng = Rng::new(33 + m as u64);
        let z = rng.bits(1 << m);
        let z_packed = pack_z_lincheck(&z, m, k_log);
        let n_log = m - k_log;
        let outer_point = rng.f128_vec(n_log);
        let eq_outer = build_eq_table(&outer_point);

        let got = partial_fold_packed_z(&z_packed, m, k_log, &eq_outer);

        let k = 1usize << k_log;
        assert_eq!(got.len(), k);
        for i_inner in 0..k {
            let mut acc = F128::zero();
            for i_outer in 0..(1usize << n_log) {
                let i = i_inner + i_outer * k;
                if z[i] {
                    acc += eq_outer[i_outer];
                }
            }
            assert_eq!(got[i_inner], acc, "mismatch at m={m}, i_inner={i_inner}");
        }
    }
}

/// `partial_fold_packed_z_fast` (parallel lookup-table) matches the scalar
/// reference `partial_fold_packed_z`.
#[test]
fn partial_fold_fast_matches_serial() {
    for &(m, k_log) in &[(10usize, 3), (12, 4), (14, 5), (16, 8), (18, 10)] {
        let mut rng = Rng::new(800 + m as u64);
        let z = rng.bits(1 << m);
        let z_packed = pack_z_lincheck(&z, m, k_log);
        let n_log = m - k_log;
        let p = rng.f128_vec(n_log);
        let eq = build_eq_table(&p);

        let serial = partial_fold_packed_z(&z_packed, m, k_log, &eq);
        let fast = partial_fold_packed_z_fast(&z_packed, m, k_log, &eq);
        assert_eq!(serial, fast, "at m={m}, k_log={k_log}");
    }
}

/// NEON single-matrix kernel matches the scalar reference.
#[test]
fn partial_fold_neon_single_matches_serial() {
    for &(m, k_log) in &[(14usize, 4), (14, 5), (16, 5), (16, 8), (18, 10)] {
        if !tiles_fit(m, k_log) {
            continue;
        }
        let mut rng = Rng::new(7000 + m as u64);
        let z = rng.bits(1 << m);
        let z_packed = pack_z_lincheck(&z, m, k_log);
        let n_log = m - k_log;
        let p = rng.f128_vec(n_log);
        let eq = build_eq_table(&p);

        let serial = partial_fold_packed_z(&z_packed, m, k_log, &eq);
        let neon = partial_fold_packed_z_neon_single(&z_packed, m, k_log, &eq);
        assert_eq!(serial, neon, "at m={m}, k_log={k_log}");
        let iblock =
            partial_fold_packed_z_neon_iblock_padded(&z_packed, m, k_log, 1usize << k_log, &eq);
        assert_eq!(serial, iblock, "iblock at m={m}, k_log={k_log}");
    }
}

/// **Padding skip is byte-identical to the dense partial fold.** On a
/// witness with honest zeros at rows `[useful_bits, 2^k_log)` of every
/// block, the padded kernels (fast + NEON single) must produce the
/// exact same `z_vec` as the dense kernels — and the dense scalar
/// reference is the ground truth.
///
/// Covers the three hash padding shapes plus a non-byte-aligned
/// `useful_bits` to exercise the NEON's boundary block (rounded up to
/// `BLOCK_K = 8`).
#[test]
fn partial_fold_padded_matches_dense() {
    // (m, k_log, useful_bits)
    let cases: &[(usize, usize, usize)] = &[
        // BLAKE3 (k_log=14, useful=15409 — boundary not byte-aligned).
        (17, 14, 15_409),
        // SHA-2  (k_log=15, useful=31401 — boundary not byte-aligned).
        (18, 15, 31_401),
        // Keccak (k_log=16, useful=42560 — exact byte boundary).
        (19, 16, 42_560),
    ];
    for &(m, k_log, useful_bits) in cases {
        let mut rng = Rng::new(0xBADD_BEEF_u64.wrapping_add((k_log * 31 + m) as u64));
        let total_bits = 1usize << m;
        let n_log = m - k_log;
        let block_size = 1usize << k_log;
        let n_blocks = 1usize << n_log;

        // Random witness with bits [useful_bits, block_size) of every block
        // zeroed — mirrors the hash-module layout.
        let mut z = rng.bits(total_bits);
        for blk in 0..n_blocks {
            for j in useful_bits..block_size {
                z[blk * block_size + j] = false;
            }
        }
        let z_packed = pack_z_lincheck(&z, m, k_log);
        let outer_point = rng.f128_vec(n_log);
        let eq_outer = build_eq_table(&outer_point);

        let dense_fast = partial_fold_packed_z_fast(&z_packed, m, k_log, &eq_outer);
        let padded_fast =
            partial_fold_packed_z_fast_padded(&z_packed, m, k_log, useful_bits, &eq_outer);
        assert_eq!(
            dense_fast, padded_fast,
            "fast: m={m}, k_log={k_log}, useful={useful_bits}"
        );

        if tiles_fit(m, k_log) {
            let dense_neon = partial_fold_packed_z_neon_single(&z_packed, m, k_log, &eq_outer);
            let padded_neon = partial_fold_packed_z_neon_single_padded(
                &z_packed,
                m,
                k_log,
                useful_bits,
                &eq_outer,
            );
            assert_eq!(
                dense_neon, padded_neon,
                "neon: m={m}, k_log={k_log}, useful={useful_bits}"
            );
            // i_inner-partitioned kernel: dense and padded must both match.
            let dense_iblock = partial_fold_packed_z_neon_iblock_padded(
                &z_packed,
                m,
                k_log,
                1usize << k_log,
                &eq_outer,
            );
            let padded_iblock = partial_fold_packed_z_neon_iblock_padded(
                &z_packed,
                m,
                k_log,
                useful_bits,
                &eq_outer,
            );
            assert_eq!(
                dense_neon, dense_iblock,
                "iblock dense: m={m}, k_log={k_log}, useful={useful_bits}"
            );
            assert_eq!(
                dense_neon, padded_iblock,
                "iblock padded: m={m}, k_log={k_log}, useful={useful_bits}"
            );
        }
    }
}

/// `partial_fold_packed_z(eq_outer) ↦ ẑ(·, x_outer)` matches direct MLE
/// evaluation of z at `(i_inner, x_outer)` for boolean i_inner.
#[test]
fn partial_fold_is_mle_at_outer_point() {
    let m = 14;
    let k_log = 5;
    let k = 1 << k_log;
    let mut rng = Rng::new(44);
    let z = rng.bits(1 << m);
    let z_packed = pack_z_lincheck(&z, m, k_log);
    let x_outer = rng.f128_vec(m - k_log);
    let eq_outer = build_eq_table(&x_outer);

    let z_partial = partial_fold_packed_z(&z_packed, m, k_log, &eq_outer);

    // For each boolean i_inner ∈ {0,1}^k_log, the partial fold should
    // equal ẑ(i_inner, x_outer).
    for i_inner in 0..k {
        // Construct the m-dim point: first k_log coords from i_inner (boolean lifted),
        // then m-k_log coords from x_outer.
        let mut point = Vec::with_capacity(m);
        for j in 0..k_log {
            point.push(if (i_inner >> j) & 1 == 1 {
                F128::one()
            } else {
                F128::zero()
            });
        }
        point.extend_from_slice(&x_outer);
        let z_eval = mle_eval_bool(&z, &point);
        assert_eq!(z_partial[i_inner], z_eval, "i_inner={i_inner}");
    }
}

// ---- End-to-end prove/verify roundtrip on honest data ----

/// Build a small honest instance: random sparse A_0/B_0/C_0, random z;
/// compute a, b, c via apply_block_diag; pick three points; compute true
/// MLE evals as v, v', v''. Roundtrip prove/verify, check claim matches
/// what the verifier would re-derive from the (now-known-honest) z.
#[test]
fn prove_verify_roundtrip_honest() {
    // Exercise a range of k_skip values:
    //   k_skip = 0 (no skip)     — reduces to multilinear lincheck
    //   k_skip = k_log (max)     — only univariate inner
    //   k_skip < k_log (typical) — protocol-realistic case
    for &(m, k_log, k_skip) in &[
        (10usize, 4, 0),
        (10, 4, 2),
        (10, 4, 4),
        (12, 5, 3),
        (14, 7, 6),
        (14, 7, 0),
    ] {
        let k = 1usize << k_log;
        let mut rng = Rng::new(55 + (m * 100 + k_log * 10 + k_skip) as u64);

        // Random sparse base matrices A_0, B_0 (no C since C = I in our use case).
        let nnz_per_mat = k * 2;
        let a_0 = random_sparse_matrix(k, nnz_per_mat, &mut rng);
        let b_0 = random_sparse_matrix(k, nnz_per_mat, &mut rng);

        // Random witness z, then a = A·z, b = B·z.
        let z = rng.bits(1 << m);
        let a = apply_block_diag(&a_0, &z, k_log);
        let b = apply_block_diag(&b_0, &z, k_log);
        let z_packed = pack_z_lincheck(&z, m, k_log);

        // **One shared quirky point** (since zerocheck gives a, b claims at
        // the same point).
        let x_ab = random_quirky_point(m, k_log, k_skip, &mut rng);

        // True quirky-MLE eval claims at the shared point.
        let v_a = mle_eval_bool_quirky(&a, m, k_log, k_skip, &x_ab);
        let v_b = mle_eval_bool_quirky(&b, m, k_log, k_skip, &x_ab);

        // Prove and verify with matched challengers.
        let circuit = SparseMatrixCircuit::new(&a_0, &b_0);
        let mut ch_p = FsChallenger::new(b"flock-test-v0");
        let (proof, claim_p) = prove(&z_packed, m, k_log, k_skip, &circuit, &x_ab, &mut ch_p);

        let mut ch_v = FsChallenger::new(b"flock-test-v0");
        let claim_v = verify(
            m, k_log, k_skip, &circuit, &x_ab, v_a, v_b, &proof, &mut ch_v,
        )
        .unwrap_or_else(|e| {
            panic!("verify rejected honest proof at m={m},k_log={k_log},k_skip={k_skip}: {e:?}")
        });

        assert_eq!(
            claim_p, claim_v,
            "claim mismatch at m={m}, k_log={k_log}, k_skip={k_skip}"
        );

        // The single `w` value must match the true z quirky evaluation
        // at ((r_inner_skip, r_inner_rest), x_ab.x_outer).
        let pt = QuirkyPoint {
            z_skip: claim_v.r_inner_skip,
            x_inner_rest: claim_v.r_inner_rest.clone(),
            x_outer: x_ab.x_outer.clone(),
        };
        assert_eq!(
            claim_v.w,
            mle_eval_bool_quirky(&z, m, k_log, k_skip, &pt),
            "w wrong at m={m}, k_log={k_log}, k_skip={k_skip}"
        );
    }
}

/// Verify must reject byte-mutated proofs. Mutation positions are picked
/// where the corresponding matrix row-vector entry is **nonzero** —
/// otherwise the inner-product delta vanishes and the mutation is
/// undetectable (a property of the random sparse matrix, not a verifier
/// bug). The verifier's consistency check is sound for *any* mutation in
/// a nonzero-weighted slot.
#[test]
fn verify_rejects_mutations() {
    let m = 12;
    let k_log = 4;
    let k_skip = 2;
    let k = 1 << k_log;
    let mut rng = Rng::new(66);
    let a_0 = random_sparse_matrix(k, k * 5, &mut rng);
    let b_0 = random_sparse_matrix(k, k * 5, &mut rng);
    let z = rng.bits(1 << m);
    let a = apply_block_diag(&a_0, &z, k_log);
    let b = apply_block_diag(&b_0, &z, k_log);
    let z_packed = pack_z_lincheck(&z, m, k_log);
    let x_ab = random_quirky_point(m, k_log, k_skip, &mut rng);
    let v_a = mle_eval_bool_quirky(&a, m, k_log, k_skip, &x_ab);
    let v_b = mle_eval_bool_quirky(&b, m, k_log, k_skip, &x_ab);

    let _seed: u64 = 0xFEEDFACE;
    let circuit = SparseMatrixCircuit::new(&a_0, &b_0);
    let mut ch_p = FsChallenger::new(b"flock-test-v0");
    let (proof, _) = prove(&z_packed, m, k_log, k_skip, &circuit, &x_ab, &mut ch_p);

    // Pick a mutation position where BOTH row vectors are nonzero so the
    // mutation guarantees both checks would diverge.
    let eq_inner = build_quirky_eq_table(x_ab.z_skip, &x_ab.x_inner_rest, k_skip);
    let row_a = sparse_row_fold(&a_0, &eq_inner);
    let row_b = sparse_row_fold(&b_0, &eq_inner);
    let idx = (0..k)
        .find(|&i| row_a[i] != F128::zero() || row_b[i] != F128::zero())
        .expect("no row-vector slot is nonzero in either A or B — test degenerate");

    // Mutations now target `z_partial` (the post-sumcheck length-2^k_skip
    // vector). Bit-flipping any entry must cause the sumcheck-final check
    // to fail (running_claim ≠ Σ comb_partial · z_partial).
    let n_skip = 1usize << k_skip;
    let skip_idx = idx % n_skip;
    let mutations: Vec<(String, Box<dyn Fn(&LincheckProof) -> LincheckProof>)> = vec![
        (
            format!("z_partial[{skip_idx}].lo bit-flip"),
            Box::new(move |p| {
                let mut q = p.clone();
                q.z_partial[skip_idx].lo ^= 1;
                q
            }),
        ),
        (
            format!("z_partial[{skip_idx}].hi bit-flip"),
            Box::new(move |p| {
                let mut q = p.clone();
                q.z_partial[skip_idx].hi ^= 1;
                q
            }),
        ),
    ];
    for (label, mutate) in mutations {
        let bad = mutate(&proof);
        let mut ch = FsChallenger::new(b"flock-test-v0");
        let res = verify(m, k_log, k_skip, &circuit, &x_ab, v_a, v_b, &bad, &mut ch);
        assert!(
            matches!(res, Err(VerifyError::ConsistencyFailed { .. })),
            "verify did not reject {label}: got {res:?}"
        );
    }
}

/// Verify must reject shape errors.
#[test]
fn verify_rejects_shape_errors() {
    let m = 10;
    let k_log = 3;
    let k_skip = 1;
    let k = 1 << k_log;
    let mut rng = Rng::new(77);
    let a_0 = random_sparse_matrix(k, k, &mut rng);
    let b_0 = random_sparse_matrix(k, k, &mut rng);
    let z = rng.bits(1 << m);
    let a = apply_block_diag(&a_0, &z, k_log);
    let b = apply_block_diag(&b_0, &z, k_log);
    let z_packed = pack_z_lincheck(&z, m, k_log);
    let x_ab = random_quirky_point(m, k_log, k_skip, &mut rng);
    let v_a = mle_eval_bool_quirky(&a, m, k_log, k_skip, &x_ab);
    let v_b = mle_eval_bool_quirky(&b, m, k_log, k_skip, &x_ab);

    let circuit = SparseMatrixCircuit::new(&a_0, &b_0);
    let mut ch_p = FsChallenger::new(b"flock-test-v0");
    let (proof, _) = prove(&z_packed, m, k_log, k_skip, &circuit, &x_ab, &mut ch_p);

    // Truncate z_partial.
    let mut bad = proof.clone();
    bad.z_partial.pop();
    let mut ch = FsChallenger::new(b"flock-test-v0");
    assert!(matches!(
        verify(m, k_log, k_skip, &circuit, &x_ab, v_a, v_b, &bad, &mut ch),
        Err(VerifyError::BadVectorLength { .. })
    ));

    // Wrong x_inner_rest length.
    let mut ch = FsChallenger::new(b"flock-test-v0");
    let bad_x_ab = QuirkyPoint {
        z_skip: x_ab.z_skip,
        x_inner_rest: x_ab.x_inner_rest[..x_ab.x_inner_rest.len() - 1].to_vec(),
        x_outer: x_ab.x_outer.clone(),
    };
    assert!(matches!(
        verify(
            m, k_log, k_skip, &circuit, &bad_x_ab, v_a, v_b, &proof, &mut ch
        ),
        Err(VerifyError::BadInnerRestLength { .. })
    ));

    // k_skip > k_log.
    let mut ch = FsChallenger::new(b"flock-test-v0");
    assert!(matches!(
        verify(
            m,
            k_log,
            k_log + 1,
            &circuit,
            &x_ab,
            v_a,
            v_b,
            &proof,
            &mut ch,
        ),
        Err(VerifyError::KSkipExceedsKLog { .. })
    ));
}

/// The column-compressed circuit folds as the row-wise one does.
#[test]
fn csc_circuit_matches_sparse() {
    let mut rng = Rng::new(91);
    let k = 16;
    let a_0 = random_sparse_matrix(k, 50, &mut rng);
    let b_0 = random_sparse_matrix(k, 30, &mut rng);
    let eq = rng.f128_vec(k);
    let alpha = rng.f128();
    let sparse = SparseMatrixCircuit::new(&a_0, &b_0);
    let csc = CscCircuit::from_matrices(&a_0, &b_0).with_const_pin(Some(3));
    let got = csc.fold_alpha_batched(alpha, &eq);
    assert_eq!(got, sparse.fold_alpha_batched(alpha, &eq));
    let (ra, rb) = (sparse_row_fold(&a_0, &eq), sparse_row_fold(&b_0, &eq));
    for c in 0..k {
        assert_eq!(got[c], alpha * ra[c] + rb[c]);
    }
    assert_eq!(csc.n_cols(), k);
    assert_eq!(csc.const_pin_col(), Some(3));
    assert_eq!(sparse.const_pin_col(), None);
}

/// A pinned wire must be one in every block.
#[test]
fn pinned_wire_is_checked() {
    let (m, k_log, k_skip) = (10usize, 4usize, 2usize);
    let k = 1usize << k_log;
    let mut rng = Rng::new(92);
    let a_0 = random_sparse_matrix(k, 2 * k, &mut rng);
    let b_0 = random_sparse_matrix(k, 2 * k, &mut rng);
    let circuit = SparseMatrixCircuit::new(&a_0, &b_0).with_const_pin(Some(5));
    let x_ab = random_quirky_point(m, k_log, k_skip, &mut rng);
    for honest in [true, false] {
        let mut z = rng.bits(1 << m);
        for block in 0..(1usize << (m - k_log)) {
            z[block * k + 5] = true;
        }
        if !honest {
            z[7 * k + 5] = false;
        }
        let v_a = mle_eval_bool_quirky(&apply_block_diag(&a_0, &z, k_log), m, k_log, k_skip, &x_ab);
        let v_b = mle_eval_bool_quirky(&apply_block_diag(&b_0, &z, k_log), m, k_log, k_skip, &x_ab);
        let z_packed = pack_z_lincheck(&z, m, k_log);
        let mut ch = FsChallenger::new(b"pin");
        let (proof, _) = prove(&z_packed, m, k_log, k_skip, &circuit, &x_ab, &mut ch);
        let mut ch = FsChallenger::new(b"pin");
        let r = verify(m, k_log, k_skip, &circuit, &x_ab, v_a, v_b, &proof, &mut ch);
        assert_eq!(r.is_ok(), honest);
    }
}

/// The remaining shape errors.
#[test]
fn verify_tells_shape_errors_apart() {
    let (m, k_log, k_skip) = (8usize, 3usize, 1usize);
    let k = 1usize << k_log;
    let mut rng = Rng::new(93);
    let a_0 = random_sparse_matrix(k, k, &mut rng);
    let b_0 = random_sparse_matrix(k, k, &mut rng);
    let circuit = SparseMatrixCircuit::new(&a_0, &b_0);
    let x_ab = random_quirky_point(m, k_log, k_skip, &mut rng);
    let z_packed = pack_z_lincheck(&rng.bits(1 << m), m, k_log);
    let mut ch = FsChallenger::new(b"shape");
    let (proof, _) = prove(&z_packed, m, k_log, k_skip, &circuit, &x_ab, &mut ch);
    let (v_a, v_b) = (rng.f128(), rng.f128());
    let mut long = x_ab.clone();
    long.x_outer.push(F128::one());
    let mut ch = FsChallenger::new(b"shape");
    assert!(matches!(
        verify(m, k_log, k_skip, &circuit, &long, v_a, v_b, &proof, &mut ch),
        Err(VerifyError::BadOuterLength { expected: 5, got: 6, .. })
    ));
    let mut ch = FsChallenger::new(b"shape");
    let mut wide = x_ab.clone();
    wide.x_inner_rest.push(F128::one());
    wide.x_outer.pop();
    assert!(matches!(
        verify(m, k_log + 1, k_skip, &circuit, &wide, v_a, v_b, &proof, &mut ch),
        Err(VerifyError::BadMatrixShape { expected: 16, got_cols: 8, .. })
    ));
    // A wrong value is a failed consistency check.
    let mut ch = FsChallenger::new(b"shape");
    assert!(matches!(
        verify(m, k_log, k_skip, &circuit, &x_ab, v_a, v_b, &proof, &mut ch),
        Err(VerifyError::ConsistencyFailed { .. })
    ));
    let mut ch = FsChallenger::new(b"shape");
    let mut bad: LincheckProof = proof.clone();
    bad.rounds.pop();
    assert!(matches!(
        verify(m, k_log, k_skip, &circuit, &x_ab, v_a, v_b, &bad, &mut ch),
        Err(VerifyError::BadVectorLength { .. })
    ));
}

/// A wrong shape is reported whatever else the proof or the circuit asks for: more skipped
/// variables than the skip domain has, or a pinned wire that no column stands for.
#[test]
fn wrong_shapes_are_reported_first() {
    let mut rng = Rng::new(94);
    let a_0 = random_sparse_matrix(8, 8, &mut rng);
    let circuit = SparseMatrixCircuit::new(&a_0, &a_0).with_const_pin(Some(99));
    let proof = LincheckProof { rounds: Vec::new(), z_partial: Vec::new() };
    let mut x_ab = QuirkyPoint {
        z_skip: rng.f128(),
        x_inner_rest: Vec::new(),
        x_outer: Vec::new(),
    };
    let mut ch = FsChallenger::new(b"first");
    assert!(matches!(
        verify(12, 10, 9, &circuit, &x_ab, rng.f128(), rng.f128(), &proof, &mut ch),
        Err(VerifyError::BadInnerRestLength { expected: 1, got: 0, .. })
    ));
    x_ab.x_inner_rest.push(rng.f128());
    assert!(matches!(
        verify(12, 10, 9, &circuit, &x_ab, rng.f128(), rng.f128(), &proof, &mut ch),
        Err(VerifyError::BadOuterLength { expected: 2, got: 0, .. })
    ));
    x_ab.x_outer = vec![rng.f128(), rng.f128()];
    assert!(matches!(
        verify(12, 10, 9, &circuit, &x_ab, rng.f128(), rng.f128(), &proof, &mut ch),
        Err(VerifyError::BadMatrixShape { expected: 1024, got_cols: 8, .. })
    ));
    assert!(matches!(
        verify(5, 3, 2, &circuit, &x_ab, rng.f128(), rng.f128(), &proof, &mut ch),
        Err(VerifyError::BadVectorLength { which: "rounds", expected: 1, got: 0 })
    ));
}

/// Packing from packed elements is packing from bits, and the padded prover proves the
/// same of a padded witness.
#[test]
fn packings_and_paddings_agree() {
    let (m, k_log, k_skip) = (12usize, 7usize, 3usize);
    let k = 1usize << k_log;
    let useful = 100;
    let mut rng = Rng::new(94);
    let mut z = rng.bits(1 << m);
    for i in 0..z.len() {
        if i % k >= useful {
            z[i] = false;
        }
    }
    let packed = pack_z_lincheck(&z, m, k_log);
    assert_eq!(packed, pack_z_lincheck_from_packed(&pack_witness(&z, m), m, k_log));
    let a_0 = random_sparse_matrix(k, 2 * k, &mut rng);
    let b_0 = random_sparse_matrix(k, 2 * k, &mut rng);
    let circuit = SparseMatrixCircuit::new(&a_0, &b_0);
    let x_ab = random_quirky_point(m, k_log, k_skip, &mut rng);
    let mut ch = FsChallenger::new(b"pad");
    let dense = prove(&packed, m, k_log, k_skip, &circuit, &x_ab, &mut ch);
    let mut ch = FsChallenger::new(b"pad");
    let padded = prove_padded(&packed, m, k_log, k_skip, useful, &circuit, &x_ab, &mut ch);
    assert_eq!(dense, padded);
    let mut ch = FsChallenger::new(b"pad");
    let (proof, claim, z_vec) =
        prove_padded_capture_z_vec(&packed, m, k_log, k_skip, useful, &circuit, &x_ab, &mut ch);
    assert_eq!((proof, claim), padded);
    let eq = build_eq_table(&x_ab.x_outer);
    assert_eq!(z_vec, partial_fold_packed_z(&packed, m, k_log, &eq));
}
