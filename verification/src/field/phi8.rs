//! φ_8: GF(2^8) → GF(2^128), the embedding of the AES field as a subfield.
//!
//! `φ_8` sends `x` to a root of x^8 + x^4 + x^3 + x + 1 in GF(2^128), and so
//! `Σ a_i x^i` to the combination of that root's powers with the bits of `a`.
use vstd::prelude::*;
use crate::field::gf2_128::{
    lemma_add_poly, lemma_add_rules, lemma_from_poly, lemma_mul_poly, lemma_poly_from,
    lemma_poly_of_units, F128,
};
use crate::field::gf2_8::{
    lemma_add_rules8, partial_product8, times_x, times_x_pow, F8,
};
use crate::field::ghash_poly::{
    join, lemma_product_associates, lemma_product_by_halves, lemma_product_distributes,
    lemma_product_units, lemma_xor, product, product_by_halves,
};

verus! {

/// The powers `x^0..x^7` of the root that `φ_8` sends `x` to.
pub open spec fn root_power(i: nat) -> u128 {
    if i == 0 {
        0x0000_0000_0000_0000_0000_0000_0000_0001u128
    } else if i == 1 {
        0x0dcb_3646_40a2_22fe_6b83_3048_3c2e_9849u128
    } else if i == 2 {
        0x3d5b_d35c_9464_6a24_7573_da4a_5f77_10edu128
    } else if i == 3 {
        0x6d58_c4e1_81f9_199f_41a1_2db1_f974_f3acu128
    } else if i == 4 {
        0xa72e_c177_64d7_ced5_5e2f_716f_4ede_412fu128
    } else if i == 5 {
        0x4d52_354a_3a3d_8c86_5cb1_0fba_bcf0_0118u128
    } else if i == 6 {
        0x553e_92e8_bc0a_e9a7_95ed_1f57_f363_2d4du128
    } else if i == 7 {
        0x9325_2331_bf04_2b11_5126_25b1_f09f_a87eu128
    } else {
        0
    }
}

/// `Σ_{i < n} a_i · root^i`, where `a_i` is bit `i` of `a`.
pub open spec fn phi8_partial(a: u8, n: nat) -> u128
    decreases n,
{
    if n == 0 {
        0
    } else {
        phi8_partial(a, (n - 1) as nat) ^ (if (a >> ((n - 1) as u8)) & 1 == 1 {
            root_power((n - 1) as nat)
        } else {
            0u128
        })
    }
}

/// `φ_8(a) = Σ_i a_i · root^i`.
pub open spec fn phi8_spec(a: F8) -> F128 {
    F128::from_poly(phi8_partial(a.0, 8))
}

spec fn phi8_bits(a: u8) -> u128 {
    (if (a >> 0u8) & 1 == 1 { 0x0000_0000_0000_0000_0000_0000_0000_0001u128 } else { 0u128 })
        ^ (if (a >> 1u8) & 1 == 1 { 0x0dcb_3646_40a2_22fe_6b83_3048_3c2e_9849u128 } else { 0u128 })
        ^ (if (a >> 2u8) & 1 == 1 { 0x3d5b_d35c_9464_6a24_7573_da4a_5f77_10edu128 } else { 0u128 })
        ^ (if (a >> 3u8) & 1 == 1 { 0x6d58_c4e1_81f9_199f_41a1_2db1_f974_f3acu128 } else { 0u128 })
        ^ (if (a >> 4u8) & 1 == 1 { 0xa72e_c177_64d7_ced5_5e2f_716f_4ede_412fu128 } else { 0u128 })
        ^ (if (a >> 5u8) & 1 == 1 { 0x4d52_354a_3a3d_8c86_5cb1_0fba_bcf0_0118u128 } else { 0u128 })
        ^ (if (a >> 6u8) & 1 == 1 { 0x553e_92e8_bc0a_e9a7_95ed_1f57_f363_2d4du128 } else { 0u128 })
        ^ (if (a >> 7u8) & 1 == 1 { 0x9325_2331_bf04_2b11_5126_25b1_f09f_a87eu128 } else { 0u128 })
}

spec fn phi8_bits_times_root(a: u8) -> u128 {
    (if (a >> 0u8) & 1 == 1 { 0x0dcb_3646_40a2_22fe_6b83_3048_3c2e_9849u128 } else { 0u128 })
        ^ (if (a >> 1u8) & 1 == 1 { 0x3d5b_d35c_9464_6a24_7573_da4a_5f77_10edu128 } else { 0u128 })
        ^ (if (a >> 2u8) & 1 == 1 { 0x6d58_c4e1_81f9_199f_41a1_2db1_f974_f3acu128 } else { 0u128 })
        ^ (if (a >> 3u8) & 1 == 1 { 0xa72e_c177_64d7_ced5_5e2f_716f_4ede_412fu128 } else { 0u128 })
        ^ (if (a >> 4u8) & 1 == 1 { 0x4d52_354a_3a3d_8c86_5cb1_0fba_bcf0_0118u128 } else { 0u128 })
        ^ (if (a >> 5u8) & 1 == 1 { 0x553e_92e8_bc0a_e9a7_95ed_1f57_f363_2d4du128 } else { 0u128 })
        ^ (if (a >> 6u8) & 1 == 1 { 0x9325_2331_bf04_2b11_5126_25b1_f09f_a87eu128 } else { 0u128 })
        ^ (if (a >> 7u8) & 1 == 1 { 0xc7bd_33d0_a58c_f5b4_740d_6c96_8b84_2acbu128 } else { 0u128 })
}

proof fn lemma_phi8_bits(a: u8)
    by (bit_vector)
    ensures
        phi8_bits(0) == 0,
        phi8_bits(1) == 1,
        phi8_bits(2) == 0x0dcb_3646_40a2_22fe_6b83_3048_3c2e_9849u128,
        phi8_bits(a) == 0 ==> a == 0,
        phi8_bits(times_x(a)) == phi8_bits_times_root(a),
        0u128 ^ phi8_bits(a) == phi8_bits(a),
{
}

#[verifier::rlimit(60)]
proof fn lemma_phi8_bits_linear(a: u8, b: u8)
    by (bit_vector)
    ensures
        phi8_bits(a ^ b) == phi8_bits(a) ^ phi8_bits(b),
{
}

proof fn lemma_phi8_partial_is_bits(a: u8)
    ensures
        phi8_partial(a, 8) == phi8_bits(a),
{
    reveal_with_fuel(phi8_partial, 9);
    lemma_xor(if (a >> 0u8) & 1 == 1 { 1u128 } else { 0u128 }, 0, 0, 0);
}

proof fn lemma_root_products()
    by (bit_vector)
    ensures
        product_by_halves(0x6b83_3048_3c2e_9849, 0x0dcb_3646_40a2_22fe, 0x6b83_3048_3c2e_9849, 0x0dcb_3646_40a2_22fe) == 0x3d5b_d35c_9464_6a24_7573_da4a_5f77_10edu128,
        product_by_halves(0x6b83_3048_3c2e_9849, 0x0dcb_3646_40a2_22fe, 0x7573_da4a_5f77_10ed, 0x3d5b_d35c_9464_6a24) == 0x6d58_c4e1_81f9_199f_41a1_2db1_f974_f3acu128,
        product_by_halves(0x6b83_3048_3c2e_9849, 0x0dcb_3646_40a2_22fe, 0x41a1_2db1_f974_f3ac, 0x6d58_c4e1_81f9_199f) == 0xa72e_c177_64d7_ced5_5e2f_716f_4ede_412fu128,
        product_by_halves(0x6b83_3048_3c2e_9849, 0x0dcb_3646_40a2_22fe, 0x5e2f_716f_4ede_412f, 0xa72e_c177_64d7_ced5) == 0x4d52_354a_3a3d_8c86_5cb1_0fba_bcf0_0118u128,
        product_by_halves(0x6b83_3048_3c2e_9849, 0x0dcb_3646_40a2_22fe, 0x5cb1_0fba_bcf0_0118, 0x4d52_354a_3a3d_8c86) == 0x553e_92e8_bc0a_e9a7_95ed_1f57_f363_2d4du128,
        product_by_halves(0x6b83_3048_3c2e_9849, 0x0dcb_3646_40a2_22fe, 0x95ed_1f57_f363_2d4d, 0x553e_92e8_bc0a_e9a7) == 0x9325_2331_bf04_2b11_5126_25b1_f09f_a87eu128,
        product_by_halves(0x6b83_3048_3c2e_9849, 0x0dcb_3646_40a2_22fe, 0x5126_25b1_f09f_a87e, 0x9325_2331_bf04_2b11) == 0xc7bd_33d0_a58c_f5b4_740d_6c96_8b84_2acbu128,
        join(0x6b83_3048_3c2e_9849, 0x0dcb_3646_40a2_22fe) == 0x0dcb_3646_40a2_22fe_6b83_3048_3c2e_9849u128,
        join(0x7573_da4a_5f77_10ed, 0x3d5b_d35c_9464_6a24) == 0x3d5b_d35c_9464_6a24_7573_da4a_5f77_10edu128,
        join(0x41a1_2db1_f974_f3ac, 0x6d58_c4e1_81f9_199f) == 0x6d58_c4e1_81f9_199f_41a1_2db1_f974_f3acu128,
        join(0x5e2f_716f_4ede_412f, 0xa72e_c177_64d7_ced5) == 0xa72e_c177_64d7_ced5_5e2f_716f_4ede_412fu128,
        join(0x5cb1_0fba_bcf0_0118, 0x4d52_354a_3a3d_8c86) == 0x4d52_354a_3a3d_8c86_5cb1_0fba_bcf0_0118u128,
        join(0x95ed_1f57_f363_2d4d, 0x553e_92e8_bc0a_e9a7) == 0x553e_92e8_bc0a_e9a7_95ed_1f57_f363_2d4du128,
        join(0x5126_25b1_f09f_a87e, 0x9325_2331_bf04_2b11) == 0x9325_2331_bf04_2b11_5126_25b1_f09f_a87eu128,
{
}

/// The root times `φ_8(a)` is `φ_8(x · a)`.
proof fn lemma_times_root(a: u8)
    ensures
        product(0x0dcb_3646_40a2_22fe_6b83_3048_3c2e_9849u128, phi8_bits(a)) == phi8_bits(times_x(a)),
{
    let root = 0x0dcb_3646_40a2_22fe_6b83_3048_3c2e_9849u128;
    lemma_root_products();
    lemma_product_units(root);
    lemma_product_by_halves(0x6b83_3048_3c2e_9849, 0x0dcb_3646_40a2_22fe, 0x6b83_3048_3c2e_9849, 0x0dcb_3646_40a2_22fe);
    lemma_product_by_halves(0x6b83_3048_3c2e_9849, 0x0dcb_3646_40a2_22fe, 0x7573_da4a_5f77_10ed, 0x3d5b_d35c_9464_6a24);
    lemma_product_by_halves(0x6b83_3048_3c2e_9849, 0x0dcb_3646_40a2_22fe, 0x41a1_2db1_f974_f3ac, 0x6d58_c4e1_81f9_199f);
    lemma_product_by_halves(0x6b83_3048_3c2e_9849, 0x0dcb_3646_40a2_22fe, 0x5e2f_716f_4ede_412f, 0xa72e_c177_64d7_ced5);
    lemma_product_by_halves(0x6b83_3048_3c2e_9849, 0x0dcb_3646_40a2_22fe, 0x5cb1_0fba_bcf0_0118, 0x4d52_354a_3a3d_8c86);
    lemma_product_by_halves(0x6b83_3048_3c2e_9849, 0x0dcb_3646_40a2_22fe, 0x95ed_1f57_f363_2d4d, 0x553e_92e8_bc0a_e9a7);
    lemma_product_by_halves(0x6b83_3048_3c2e_9849, 0x0dcb_3646_40a2_22fe, 0x5126_25b1_f09f_a87e, 0x9325_2331_bf04_2b11);
    let t0 = if (a >> 0u8) & 1 == 1 { 0x0000_0000_0000_0000_0000_0000_0000_0001u128 } else { 0u128 };
    let t1 = if (a >> 1u8) & 1 == 1 { 0x0dcb_3646_40a2_22fe_6b83_3048_3c2e_9849u128 } else { 0u128 };
    let t2 = if (a >> 2u8) & 1 == 1 { 0x3d5b_d35c_9464_6a24_7573_da4a_5f77_10edu128 } else { 0u128 };
    let t3 = if (a >> 3u8) & 1 == 1 { 0x6d58_c4e1_81f9_199f_41a1_2db1_f974_f3acu128 } else { 0u128 };
    let t4 = if (a >> 4u8) & 1 == 1 { 0xa72e_c177_64d7_ced5_5e2f_716f_4ede_412fu128 } else { 0u128 };
    let t5 = if (a >> 5u8) & 1 == 1 { 0x4d52_354a_3a3d_8c86_5cb1_0fba_bcf0_0118u128 } else { 0u128 };
    let t6 = if (a >> 6u8) & 1 == 1 { 0x553e_92e8_bc0a_e9a7_95ed_1f57_f363_2d4du128 } else { 0u128 };
    let t7 = if (a >> 7u8) & 1 == 1 { 0x9325_2331_bf04_2b11_5126_25b1_f09f_a87eu128 } else { 0u128 };
    lemma_product_distributes(root, t0, t1);
    lemma_product_distributes(root, t0 ^ t1, t2);
    lemma_product_distributes(root, t0 ^ t1 ^ t2, t3);
    lemma_product_distributes(root, t0 ^ t1 ^ t2 ^ t3, t4);
    lemma_product_distributes(root, t0 ^ t1 ^ t2 ^ t3 ^ t4, t5);
    lemma_product_distributes(root, t0 ^ t1 ^ t2 ^ t3 ^ t4 ^ t5, t6);
    lemma_product_distributes(root, t0 ^ t1 ^ t2 ^ t3 ^ t4 ^ t5 ^ t6, t7);
    lemma_phi8_bits(a);
}


proof fn lemma_times_root_pow(a: u8, n: nat)
    ensures
        n < 8 ==> product(root_power(n), phi8_bits(a)) == phi8_bits(times_x_pow(a, n)),
    decreases n,
{
    if n == 0 {
        lemma_product_units(phi8_bits(a));
    } else if n < 8 {
        let m = (n - 1) as nat;
        lemma_times_root_pow(a, m);
        lemma_times_root(times_x_pow(a, m));
        lemma_root_products();
        lemma_root_power_step(m);
        lemma_product_associates(0x0dcb_3646_40a2_22fe_6b83_3048_3c2e_9849u128, root_power(m), phi8_bits(a));
    }
}

proof fn lemma_root_power_step(m: nat)
    requires
        m < 7,
    ensures
        product(0x0dcb_3646_40a2_22fe_6b83_3048_3c2e_9849u128, root_power(m)) == root_power(m + 1),
{
    lemma_root_products();
    lemma_product_units(0x0dcb_3646_40a2_22fe_6b83_3048_3c2e_9849u128);
    lemma_product_by_halves(0x6b83_3048_3c2e_9849, 0x0dcb_3646_40a2_22fe, 0x6b83_3048_3c2e_9849, 0x0dcb_3646_40a2_22fe);
    lemma_product_by_halves(0x6b83_3048_3c2e_9849, 0x0dcb_3646_40a2_22fe, 0x7573_da4a_5f77_10ed, 0x3d5b_d35c_9464_6a24);
    lemma_product_by_halves(0x6b83_3048_3c2e_9849, 0x0dcb_3646_40a2_22fe, 0x41a1_2db1_f974_f3ac, 0x6d58_c4e1_81f9_199f);
    lemma_product_by_halves(0x6b83_3048_3c2e_9849, 0x0dcb_3646_40a2_22fe, 0x5e2f_716f_4ede_412f, 0xa72e_c177_64d7_ced5);
    lemma_product_by_halves(0x6b83_3048_3c2e_9849, 0x0dcb_3646_40a2_22fe, 0x5cb1_0fba_bcf0_0118, 0x4d52_354a_3a3d_8c86);
    lemma_product_by_halves(0x6b83_3048_3c2e_9849, 0x0dcb_3646_40a2_22fe, 0x95ed_1f57_f363_2d4d, 0x553e_92e8_bc0a_e9a7);
    lemma_product_by_halves(0x6b83_3048_3c2e_9849, 0x0dcb_3646_40a2_22fe, 0x5126_25b1_f09f_a87e, 0x9325_2331_bf04_2b11);
}

proof fn lemma_phi8_product_partial(a: u8, b: u8, n: nat)
    requires
        n <= 8,
    ensures
        phi8_bits(partial_product8(a, b, n)) == product(phi8_partial(a, n), phi8_bits(b)),
    decreases n,
{
    lemma_phi8_bits(0);
    lemma_product_units(phi8_bits(b));
    if n > 0 {
        let m = (n - 1) as nat;
        lemma_phi8_product_partial(a, b, m);
        lemma_times_root_pow(b, m);
        lemma_phi8_bits_linear(partial_product8(a, b, m), times_x_pow(b, m));
        lemma_product_distributes(phi8_bits(b), phi8_partial(a, m), root_power(m));
        lemma_xor(phi8_partial(a, m), 0, 0, 0);
    }
}

/// `φ_8` is a homomorphism of fields: it keeps sums, products, zero and one.
pub proof fn lemma_phi8_homomorphism(a: F8, b: F8)
    ensures
        phi8_spec(a + b) == phi8_spec(a) + phi8_spec(b),
        phi8_spec(a * b) == phi8_spec(a) * phi8_spec(b),
        phi8_spec(F8::zero()) == F128::zero(),
        phi8_spec(F8::one()) == F128::one(),
{
    reveal(F8::spec_add);
    reveal(F8::spec_mul);
    lemma_phi8_partial_is_bits(a.0);
    lemma_phi8_partial_is_bits(b.0);
    lemma_phi8_partial_is_bits((a + b).0);
    lemma_phi8_partial_is_bits((a * b).0);
    lemma_phi8_partial_is_bits(0);
    lemma_phi8_partial_is_bits(1);
    lemma_phi8_bits(a.0);
    lemma_phi8_bits_linear(a.0, b.0);
    lemma_phi8_product_partial(a.0, b.0, 8);
    lemma_poly_from(phi8_bits(a.0));
    lemma_poly_from(phi8_bits(b.0));
    lemma_add_poly(phi8_spec(a), phi8_spec(b));
    lemma_mul_poly(phi8_spec(a), phi8_spec(b));
    lemma_from_poly(phi8_spec(a) + phi8_spec(b));
    lemma_from_poly(phi8_spec(a) * phi8_spec(b));
    lemma_poly_of_units();
}

/// `φ_8` is injective.
pub proof fn lemma_phi8_injective(a: F8, b: F8)
    requires
        phi8_spec(a) == phi8_spec(b),
    ensures
        a == b,
{
    reveal(F8::spec_add);
    lemma_phi8_homomorphism(a, b);
    lemma_add_rules(phi8_spec(a), phi8_spec(b), phi8_spec(a), phi8_spec(b));
    lemma_phi8_partial_is_bits((a + b).0);
    lemma_poly_from(phi8_bits((a + b).0));
    lemma_poly_of_units();
    lemma_phi8_bits((a + b).0);
    lemma_add_rules8(a, b, b, b);
    lemma_add_rules8(b, a, b, b);
}

/// The image of `a` under `φ_8`.
pub fn phi8(a: F8) -> (r: F128)
    ensures
        r == phi8_spec(a),
{
    let mut r = F128::zero();
    proof {
        lemma_poly_of_units();
    }
    let mut i: u8 = 0;
    while i < 8
        invariant
            i <= 8,
            r.poly() == phi8_partial(a.0, i as nat),
        decreases 8 - i,
    {
        let p = root_power_element(i);
        proof {
            lemma_xor(r.poly(), 0, 0, 0);
            lemma_add_poly(r, p);
        }
        if (a.0 >> i) & 1 == 1 {
            r = r + p;
        }
        i = i + 1;
    }
    proof {
        lemma_from_poly(r);
    }
    r
}

/// The `i`-th power of the root that `φ_8` sends `x` to.
fn root_power_element(i: u8) -> (r: F128)
    requires
        i < 8,
    ensures
        r.poly() == root_power(i as nat),
{
    proof {
        lemma_root_products();
        lemma_poly_of_units();
    }
    match i {
        0 => F128 { lo: 1, hi: 0 },
        1 => F128 { lo: 0x6b83_3048_3c2e_9849, hi: 0x0dcb_3646_40a2_22fe },
        2 => F128 { lo: 0x7573_da4a_5f77_10ed, hi: 0x3d5b_d35c_9464_6a24 },
        3 => F128 { lo: 0x41a1_2db1_f974_f3ac, hi: 0x6d58_c4e1_81f9_199f },
        4 => F128 { lo: 0x5e2f_716f_4ede_412f, hi: 0xa72e_c177_64d7_ced5 },
        5 => F128 { lo: 0x5cb1_0fba_bcf0_0118, hi: 0x4d52_354a_3a3d_8c86 },
        6 => F128 { lo: 0x95ed_1f57_f363_2d4d, hi: 0x553e_92e8_bc0a_e9a7 },
        _ => F128 { lo: 0x5126_25b1_f09f_a87e, hi: 0x9325_2331_bf04_2b11 },
    }
}

} // verus!
