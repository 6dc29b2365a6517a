//! Block R1CS instances.
use flock_core::field::F128;
use flock_core::lincheck::LincheckCircuit;
use flock_core::pcs::pack_witness;
use flock_core::r1cs::packed::{apply_block_diag_packed, get_bit_packed, set_bit_packed};
use flock_core::r1cs::{apply_block_diag, BlockR1cs, SparseBinaryMatrix};

/// Identity base matrix: `A_0 = I_k`. Each row has exactly one nonzero at
/// the diagonal.
fn identity(k: usize) -> SparseBinaryMatrix {
    SparseBinaryMatrix {
        num_rows: k,
        num_cols: k,
        rows: (0..k).map(|i| vec![i]).collect(),
    }
}

/// Packed apply_a matches bool apply_a.
#[test]
fn packed_matches_bool_apply() {
    // Test at several k_log values: k_log < 7, k_log = 7, k_log > 7.
    // (13,7)/(15,8) give n_outer = 64/128 — exercises the 64-wide strip
    // kernel when enough rayon workers' worth of strips exist.
    for &(m, k_log) in &[(10usize, 3), (10, 6), (10, 7), (12, 8), (13, 7), (15, 8)] {
        // Build a random sparse matrix.
        let k = 1usize << k_log;
        let mut rng = TestRng::new(0xABCD + m as u64 + k_log as u64 * 37);
        let mat = SparseBinaryMatrix {
            num_rows: k,
            num_cols: k,
            // Each row picks a few random columns.
            rows: (0..k)
                .map(|_| {
                    let n_nonzero = 2 + (rng.next_u64() % 4) as usize;
                    (0..n_nonzero)
                        .map(|_| (rng.next_u64() as usize) % k)
                        .collect::<Vec<_>>()
                })
                .collect(),
        };

        // Random witness.
        let z: Vec<bool> = (0..(1 << m)).map(|_| rng.next_u64() & 1 == 1).collect();
        let z_packed = pack_witness(&z, m);

        // Bool reference.
        let a_bool = apply_block_diag(&mat, &z, k_log);
        let a_packed = apply_block_diag_packed(&mat, &z_packed, m, k_log);

        // Compare bit-by-bit.
        for i in 0..(1 << m) {
            let expected = a_bool[i];
            let got = get_bit_packed(&a_packed, i);
            assert_eq!(got, expected, "mismatch at i={i} (m={m}, k_log={k_log})");
        }
    }
}

struct TestRng(u64);
impl TestRng {
    fn new(seed: u64) -> Self {
        Self(seed)
    }
    fn next_u64(&mut self) -> u64 {
        self.0 = self.0.wrapping_add(0x9E3779B97F4A7C15);
        let mut z = self.0;
        z = (z ^ (z >> 30)).wrapping_mul(0xBF58476D1CE4E5B9);
        z = (z ^ (z >> 27)).wrapping_mul(0x94D049BB133111EB);
        z ^ (z >> 31)
    }
}

#[test]
fn identity_matrices_accept_any_witness() {
    // A_0 = B_0 = C_0 = I_k ⇒ a = z, b = z, c = z. Boolean idempotence
    // makes the circuit-R1CS constraint trivially satisfied for any z.
    let k_log = 3;
    let m = 6;
    let r1cs = BlockR1cs {
        m,
        k_log,
        k_skip: 2,
        useful_bits: 1 << k_log,
        a_0: identity(1 << k_log),
        b_0: identity(1 << k_log),
        c_0: identity(1 << k_log),
        const_pin: None,
    };
    for seed in 0..4 {
        let z: Vec<bool> = (0..(1 << m)).map(|i| ((i ^ seed) & 1) == 1).collect();
        assert!(r1cs.satisfies(&z), "seed={seed}");
    }
}

#[test]
fn zero_matrices_require_zero_witness() {
    // A_0 = B_0 = 0, C_0 = I ⇒ a·b = 0 ⇒ z = 0.
    let k_log = 3;
    let m = 6;
    let zero = SparseBinaryMatrix {
        num_rows: 1 << k_log,
        num_cols: 1 << k_log,
        rows: vec![Vec::new(); 1 << k_log],
    };
    let r1cs = BlockR1cs {
        m,
        k_log,
        k_skip: 2,
        useful_bits: 1 << k_log,
        a_0: zero.clone(),
        b_0: zero,
        c_0: identity(1 << k_log),
        const_pin: None,
    };
    let z_zero = vec![false; 1 << m];
    assert!(r1cs.satisfies(&z_zero));
    let mut z_nonzero = vec![false; 1 << m];
    z_nonzero[5] = true;
    assert!(!r1cs.satisfies(&z_nonzero));
}

/// The packed check answers as the check on bits does.
#[test]
fn packed_satisfaction_matches_bits() {
    let (k_log, m) = (3, 8);
    let mut rng = TestRng::new(0x7001);
    let mut b_0 = identity(1 << k_log);
    b_0.rows[2] = vec![2, 5];
    let r1cs = BlockR1cs {
        m,
        k_log,
        k_skip: 2,
        useful_bits: 1 << k_log,
        a_0: identity(1 << k_log),
        b_0,
        c_0: identity(1 << k_log),
        const_pin: None,
    };
    assert!(r1cs.c0_is_identity());
    assert_eq!((r1cs.k(), r1cs.n(), r1cs.n_log(), r1cs.n_outer()), (8, 256, 5, 32));
    for _ in 0..4 {
        let mut z: Vec<bool> = (0..1 << m).map(|_| rng.next_u64() & 1 == 1).collect();
        assert_eq!(r1cs.satisfies(&z), r1cs.satisfies_packed(&pack_witness(&z, m)));
        // Where wire 5 is zero, row 2 reads z·z = z.
        for block in 0..32 {
            z[8 * block + 5] = false;
        }
        assert!(r1cs.satisfies(&z));
        assert!(r1cs.satisfies_packed(&pack_witness(&z, m)));
        assert_eq!(r1cs.apply_a(&z), z);
        let b = r1cs.apply_b(&z);
        assert_eq!(r1cs.apply_b_packed(&pack_witness(&z, m)), pack_witness(&b, m));
    }
}

/// Single bits of a packed witness.
#[test]
fn packed_bits() {
    let mut z = pack_witness(&vec![false; 256], 8);
    set_bit_packed(&mut z, 200);
    set_bit_packed(&mut z, 3);
    for i in 0..256 {
        assert_eq!(get_bit_packed(&z, i), i == 200 || i == 3);
    }
    assert_eq!(z[1].hi, 1 << 8);
}

/// Both circuits of an instance fold its matrices, `α·eqᵀA_0 + eqᵀB_0`, and pin its wire.
#[test]
fn circuits_of_an_instance() {
    let b_0 = SparseBinaryMatrix {
        num_rows: 4,
        num_cols: 4,
        rows: vec![vec![1], vec![1, 2], Vec::new(), vec![0]],
    };
    let r1cs = BlockR1cs {
        m: 7,
        k_log: 2,
        k_skip: 1,
        useful_bits: 4,
        a_0: identity(4),
        b_0,
        c_0: identity(4),
        const_pin: Some(3),
    };
    let alpha = F128 { lo: 0x10, hi: 0 };
    let eq: Vec<F128> = (1..5).map(|i| F128 { lo: i, hi: 0 }).collect();
    let expected: Vec<F128> = vec![
        alpha * eq[0] + eq[3],
        alpha * eq[1] + eq[0] + eq[1],
        alpha * eq[2] + eq[1],
        alpha * eq[3],
    ];
    let sparse = r1cs.sparse_lincheck_circuit();
    assert_eq!(sparse.n_cols(), 4);
    assert_eq!(sparse.fold_alpha_batched(alpha, &eq), expected);
    assert_eq!(sparse.const_pin_col(), Some(3));
    let csc = r1cs.csc_lincheck_circuit();
    assert_eq!(csc.n_cols(), 4);
    assert_eq!(csc.fold_alpha_batched(alpha, &eq), expected);
    assert_eq!(csc.const_pin_col(), Some(3));
    // A circuit built anew folds alike.
    let again = r1cs.csc_lincheck_circuit();
    assert_eq!(again.n_cols(), 4);
    assert_eq!(again.fold_alpha_batched(alpha, &eq), expected);
    assert_eq!(again.const_pin_col(), Some(3));
}

/// Only the identity matrix is the identity.
#[test]
fn identity_is_recognised() {
    let mut r1cs = BlockR1cs {
        m: 7,
        k_log: 1,
        k_skip: 1,
        useful_bits: 2,
        a_0: identity(2),
        b_0: identity(2),
        c_0: identity(2),
        const_pin: None,
    };
    assert!(r1cs.c0_is_identity());
    r1cs.c_0.rows = Vec::new();
    assert!(!r1cs.c0_is_identity());
    r1cs.c_0.rows = vec![vec![0]];
    assert!(!r1cs.c0_is_identity());
    r1cs.c_0.rows = vec![vec![0], vec![1], vec![2]];
    assert!(!r1cs.c0_is_identity());
    r1cs.c_0.rows = vec![vec![0], vec![0]];
    assert!(!r1cs.c0_is_identity());
    r1cs.c_0.rows = vec![vec![0], vec![1, 1]];
    assert!(!r1cs.c0_is_identity());
    r1cs.c_0 = identity(4);
    assert!(!r1cs.c0_is_identity());
}
