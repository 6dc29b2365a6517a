//! GF(2^8).
use flock_core::field::gf2_8::{clmul8_software, gf8_reduce, neon};
use flock_core::field::F8;

/// Deterministic splitmix64 PRNG for test reproducibility.
struct Rng(u64);
impl Rng {
    fn new(seed: u64) -> Self {
        Self(seed)
    }
    fn next_u64(&mut self) -> u64 {
        self.0 = self.0.wrapping_add(0x9E3779B97F4A7C15);
        let mut z = self.0;
        z = (z ^ (z >> 30)).wrapping_mul(0xBF58476D1CE4E5B9);
        z = (z ^ (z >> 27)).wrapping_mul(0x94D049BB133111EB);
        z ^ (z >> 31)
    }
}

#[test]
fn add_is_xor() {
    assert_eq!(F8(0x53) + F8(0xCA), F8(0x53 ^ 0xCA));
    assert_eq!(F8(0xFF) + F8(0xFF), F8::zero());
}

#[test]
fn gf2_8_mul_identities() {
    for v in 0u8..=255 {
        let a = F8(v);
        assert_eq!(a * F8::zero(), F8::zero());
        assert_eq!(a * F8::one(), a);
    }
}

#[test]
fn mul_known_values() {
    // x = F8(0x02). x^2 = 0x04. x^4 = 0x10.
    // x^8 mod p = x^4 + x^3 + x + 1 = 0x1B.
    let x = F8(0x02);
    let x2 = x * x;
    let x4 = x2 * x2;
    let x8 = x4 * x4;
    assert_eq!(x2, F8(0x04));
    assert_eq!(x4, F8(0x10));
    assert_eq!(x8, F8(0x1B));
}

#[test]
fn inv_roundtrip() {
    for v in 1u8..=255 {
        let a = F8(v);
        assert_eq!(a * a.inv(), F8::one(), "v={}", v);
    }
}

/// The reduction lane by lane agrees with the sixteen lanes at once.
#[test]
fn software_matches_neon() {
    let mut rng = Rng::new(0xDEADBEEF);
    for _ in 0..1024 {
        let a = (rng.next_u64() & 0xff) as u8;
        let b = (rng.next_u64() & 0xff) as u8;
        let lanes = neon::gf8_mul_vec16([a; 16], [b; 16]);
        assert_eq!(lanes, [gf8_reduce(clmul8_software(a, b)); 16]);
    }
}

#[test]
fn gf2_8_associativity_random() {
    let mut rng = Rng::new(0xC0FFEE);
    for _ in 0..256 {
        let a = F8((rng.next_u64() & 0xff) as u8);
        let b = F8((rng.next_u64() & 0xff) as u8);
        let c = F8((rng.next_u64() & 0xff) as u8);
        assert_eq!((a * b) * c, a * (b * c));
        assert_eq!(a * (b + c), a * b + a * c);
    }
}

#[test]
fn mul_commutativity_exhaustive() {
    // Trivially symmetric in the formula, but free to assert over all pairs.
    for a in 0u8..=255 {
        for b in 0u8..=255 {
            assert_eq!(F8(a) * F8(b), F8(b) * F8(a));
        }
    }
}

#[test]
fn fips_197_test_vectors() {
    // Published products of the field that AES uses.
    assert_eq!(F8(0x57) * F8(0x13), F8(0xfe), "FIPS-197: 57·13");
    assert_eq!(F8(0x57) * F8(0x83), F8(0xc1), "FIPS-197: 57·83");
    // xtime: a · 0x02, exhaustively: xtime(a) = (a << 1) ^ (0x1B if a high bit).
    for a in 0u8..=255 {
        let expected = if a & 0x80 != 0 {
            (a << 1) ^ 0x1b
        } else {
            a << 1
        };
        assert_eq!(
            (F8(a) * F8(0x02)).0,
            expected,
            "xtime mismatch at a=0x{a:02x}"
        );
    }
}

#[test]
fn neon_gf8_mul_vec16_matches_scalar() {
    let mut rng = Rng::new(0xBADC0FFEE);
    for _ in 0..256 {
        let mut a_arr = [0u8; 16];
        let mut b_arr = [0u8; 16];
        for i in 0..16 {
            a_arr[i] = (rng.next_u64() & 0xff) as u8;
            b_arr[i] = (rng.next_u64() & 0xff) as u8;
        }
        // Scalar reference: lane-wise F8 mul.
        let mut expected = [0u8; 16];
        for i in 0..16 {
            expected[i] = (F8(a_arr[i]) * F8(b_arr[i])).0;
        }
        let result = neon::gf8_mul_vec16(a_arr, b_arr);
        assert_eq!(result, expected, "a={:02x?}, b={:02x?}", a_arr, b_arr);
    }
}

/// The vector reduction keeps the halves in their places.
#[test]
fn vector_reduction_matches_scalar() {
    let c0: [u16; 8] = [0x7fff, 0x0100, 0x011b, 0x00ff, 0x4000, 0x2b79, 0, 1];
    let c1: [u16; 8] = [0x1234, 0x0200, 0x0236, 0x8000, 0xffff, 0x0080, 2, 3];
    let r = neon::gf8_reduce_vec16(c0, c1);
    for i in 0..8 {
        assert_eq!(r[i], gf8_reduce(c0[i]));
        assert_eq!(r[8 + i], gf8_reduce(c1[i]));
    }
    assert_eq!(r[1], 0x1b);
    assert_eq!(r[2], 0);
}

/// Zero has no inverse and is mapped to itself.
#[test]
fn inverse_of_zero_is_zero() {
    assert_eq!(F8::zero().inv(), F8::zero());
    assert!(F8::zero().is_zero());
    assert!(!F8::new(3).is_zero());
    assert_eq!(F8(0x53).inv(), F8(0xca));
}

#[test]
fn fermat_little_theorem() {
    // F_{2^8}\{0} has order 255, so a^{255} = 1 for every nonzero a.
    // Strong structural check: catches any single-bit error in the
    // reduction logic, since wrong reduction breaks the cyclic group.
    for v in 1u8..=255 {
        let a = F8(v);
        let mut p = F8::one();
        for _ in 0..255 {
            p *= a;
        }
        assert_eq!(p, F8::one(), "a^255 != 1 for a=0x{v:02x}");
    }
}
