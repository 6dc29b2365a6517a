//! Bit transposes.
use flock_core::bits::{transpose_64x64, transpose_8_u64s_to_64_bytes, transpose_8x8_bits};

/// Scalar reference for [`transpose_8_u64s_to_64_bytes`] — test oracle only.
fn transpose_8_u64s_to_64_bytes_scalar(lanes: &[u64; 8], out: &mut [u8]) {
    for c in 0..8 {
        let shift = c * 8;
        let mut packed: u64 = 0;
        packed |= ((lanes[0] >> shift) & 0xFF) << (0 * 8);
        packed |= ((lanes[1] >> shift) & 0xFF) << (1 * 8);
        packed |= ((lanes[2] >> shift) & 0xFF) << (2 * 8);
        packed |= ((lanes[3] >> shift) & 0xFF) << (3 * 8);
        packed |= ((lanes[4] >> shift) & 0xFF) << (4 * 8);
        packed |= ((lanes[5] >> shift) & 0xFF) << (5 * 8);
        packed |= ((lanes[6] >> shift) & 0xFF) << (6 * 8);
        packed |= ((lanes[7] >> shift) & 0xFF) << (7 * 8);
        let transposed = transpose_8x8_bits(packed);
        out[c * 8..c * 8 + 8].copy_from_slice(&transposed.to_le_bytes());
    }
}

/// The NEON-delegating transpose must match the scalar per-column oracle
/// bit-for-bit on varied inputs.
#[test]
fn transpose_8_u64s_matches_scalar() {
    let mut state = 0x1234_5678_9ABC_DEF0u64;
    let mut next = || {
        state = state.wrapping_add(0x9E3779B97F4A7C15);
        let mut z = state;
        z = (z ^ (z >> 30)).wrapping_mul(0xBF58476D1CE4E5B9);
        z = (z ^ (z >> 27)).wrapping_mul(0x94D049BB133111EB);
        z ^ (z >> 31)
    };
    for _ in 0..100 {
        let lanes: [u64; 8] = core::array::from_fn(|_| next());
        let mut fast = [0u8; 64];
        let mut oracle = [0u8; 64];
        transpose_8_u64s_to_64_bytes(&lanes, &mut fast);
        transpose_8_u64s_to_64_bytes_scalar(&lanes, &mut oracle);
        assert_eq!(fast, oracle);
    }
    // Edge patterns.
    for lanes in [[0u64; 8], [u64::MAX; 8], core::array::from_fn(|i| 1u64 << i)] {
        let mut fast = [0u8; 64];
        let mut oracle = [0u8; 64];
        transpose_8_u64s_to_64_bytes(&lanes, &mut fast);
        transpose_8_u64s_to_64_bytes_scalar(&lanes, &mut oracle);
        assert_eq!(fast, oracle, "lanes={lanes:?}");
    }
}

/// Transposing twice is the identity.
#[test]
fn transpose_is_involution() {
    let mut state = 0x9E37_79B9_7F4A_7C15u64;
    for _ in 0..256 {
        state = state.wrapping_mul(0x2545_F491_4F6C_DD1D).rotate_left(31);
        assert_eq!(transpose_8x8_bits(transpose_8x8_bits(state)), state);
    }
}

/// Cross-check against a naive bit-by-bit transpose of the 8×8 matrix.
#[test]
fn matches_naive() {
    let mut state = 0x1234_5678_9ABC_DEF0u64;
    for _ in 0..256 {
        state = state.wrapping_mul(0x2545_F491_4F6C_DD1D).rotate_left(17);
        let got = transpose_8x8_bits(state);
        let mut want = 0u64;
        for r in 0..8 {
            for c in 0..8 {
                if (state >> (r * 8 + c)) & 1 == 1 {
                    want |= 1u64 << (c * 8 + r);
                }
            }
        }
        assert_eq!(got, want, "input={state:016x}");
    }
}

/// The 64×64 transpose moves bit `j` of word `i` to bit `i` of word `j`.
#[test]
fn transpose_64x64_matches_naive() {
    let mut state = 0xfeed_5eedu64;
    let mut a = [0u64; 64];
    for x in a.iter_mut() {
        state = state.wrapping_mul(0x2545_F491_4F6C_DD1D).rotate_left(23);
        *x = state;
    }
    let before = a;
    transpose_64x64(&mut a);
    for i in 0..64 {
        for j in 0..64 {
            assert_eq!((a[j] >> i) & 1, (before[i] >> j) & 1);
        }
    }
    transpose_64x64(&mut a);
    assert_eq!(a, before);
}
