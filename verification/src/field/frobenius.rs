//! The squaring map of GF(2^128), and why every nonzero element has an inverse.
//!
//! `x^(2^128) == x` makes 128-fold squaring the identity, and the only elements
//! that squaring fixes are `0` and `1`. So `a^(2^128 - 1)`, which squaring fixes,
//! is `1` for every nonzero `a`.
use vstd::prelude::*;
use crate::field::ghash_poly::{
    carryless_product, fold_high, lemma_carryless_is_product, lemma_fold, lemma_fold_high,
    lemma_mul_x_pow_linear, lemma_partial_one_right, lemma_product_associates,
    lemma_product_commutes, lemma_product_distributes, lemma_product_mul_x_left,
    lemma_product_mul_x_pow, lemma_product_units, lemma_schoolbook, lemma_split, lemma_x_pow,
    lemma_xor, mul_x, mul_x_pow, partial_product, product,
};

verus! {

/// `Σ a_i x^i` becomes `Σ a_i x^{2i}`.
pub open spec fn spread(a: u64) -> u128 {
    let s0 = a as u128;
    let s1 = (s0 ^ (s0 << 32)) & 0x0000_0000_ffff_ffff_0000_0000_ffff_ffffu128;
    let s2 = (s1 ^ (s1 << 16)) & 0x0000_ffff_0000_ffff_0000_ffff_0000_ffffu128;
    let s3 = (s2 ^ (s2 << 8)) & 0x00ff_00ff_00ff_00ff_00ff_00ff_00ff_00ffu128;
    let s4 = (s3 ^ (s3 << 4)) & 0x0f0f_0f0f_0f0f_0f0f_0f0f_0f0f_0f0f_0f0fu128;
    let s5 = (s4 ^ (s4 << 2)) & 0x3333_3333_3333_3333_3333_3333_3333_3333u128;
    (s5 ^ (s5 << 1)) & 0x5555_5555_5555_5555_5555_5555_5555_5555u128
}

/// `u · u`, by spreading the bits and folding the high half.
pub open spec fn square_bits(u: u128) -> u128 {
    spread(u as u64) ^ fold_high(spread((u >> 64) as u64))
}

/// Squaring fixes `0` and `1` only.
proof fn lemma_square_fixed_points(u: u128)
    by (bit_vector)
    requires
        square_bits(u) == u,
    ensures
        u == 0 || u == 1,
{
}


/// `x^(2^k)` for `k <= 128`, as constants.
spec fn x_frobenius(k: u64) -> u128 {
    if k == 0 {
        0x0000_0000_0000_0000_0000_0000_0000_0002u128
    } else if k == 1 {
        0x0000_0000_0000_0000_0000_0000_0000_0004u128
    } else if k == 2 {
        0x0000_0000_0000_0000_0000_0000_0000_0010u128
    } else if k == 3 {
        0x0000_0000_0000_0000_0000_0000_0000_0100u128
    } else if k == 4 {
        0x0000_0000_0000_0000_0000_0000_0001_0000u128
    } else if k == 5 {
        0x0000_0000_0000_0000_0000_0001_0000_0000u128
    } else if k == 6 {
        0x0000_0000_0000_0001_0000_0000_0000_0000u128
    } else if k == 7 {
        0x0000_0000_0000_0000_0000_0000_0000_0087u128
    } else if k == 8 {
        0x0000_0000_0000_0000_0000_0000_0000_4015u128
    } else if k == 9 {
        0x0000_0000_0000_0000_0000_0000_1000_0111u128
    } else if k == 10 {
        0x0000_0000_0000_0000_0100_0000_0001_0101u128
    } else if k == 11 {
        0x0001_0000_0000_0000_0000_0001_0001_0001u128
    } else if k == 12 {
        0x0000_0087_0000_0001_0000_0001_0000_0001u128
    } else if k == 13 {
        0x0000_0000_0021_caea_0000_0000_0000_0086u128
    } else if k == 14 {
        0x0000_0000_0000_0000_0002_1cae_93f7_cfc8u128
    } else if k == 15 {
        0x0000_0004_0150_4454_4105_5515_5055_5040u128
    } else if k == 16 {
        0x1001_0011_1111_0961_118f_e619_6978_ef70u128
    } else if k == 17 {
        0x8601_40d2_5414_86c6_93c6_92c7_7518_7987u128
    } else if k == 18 {
        0x8b69_509b_312d_6501_ea61_8e11_df04_ea1eu128
    } else if k == 19 {
        0xb715_594e_b775_6558_cad0_352d_30b3_11b4u128
    } else if k == 20 {
        0x01af_deff_d35e_5fde_54e1_a6f8_65fe_82b9u128
    } else if k == 21 {
        0x11b4_a303_5893_5542_2182_89f0_9c06_59edu128
    } else if k == 22 {
        0x83a5_1357_9eda_5793_97b1_4587_eebe_264du128
    } else if k == 23 {
        0x83ad_91f6_9582_bddf_38d1_5180_f9de_45adu128
    } else if k == 24 {
        0xc7f8_a417_56ad_614d_1a97_936b_620f_481du128
    } else if k == 25 {
        0xbb84_4bf6_9575_99a6_e94b_f568_7ccf_4c39u128
    } else if k == 26 {
        0x2c3b_d83d_0661_350d_5aad_b383_7634_c244u128
    } else if k == 27 {
        0x24f6_fc23_53c7_f232_1f72_6995_c3f3_3829u128
    } else if k == 28 {
        0x150e_3443_16f3_5f82_a5b7_efc5_2c5e_9c53u128
    } else if k == 29 {
        0xcbe6_6ebb_c72d_228a_8917_38c7_9d5a_d319u128
    } else if k == 30 {
        0xd331_a773_42cf_2867_fbb8_2471_4f38_f6c2u128
    } else if k == 31 {
        0x60dc_dee4_d2f1_fc92_6260_9e69_68de_22b0u128
    } else if k == 32 {
        0x782d_0a99_5dd3_b018_2177_7af8_0695_052au128
    } else if k == 33 {
        0xcec3_2022_36b9_330f_de0a_74a9_5b11_a7b2u128
    } else if k == 34 {
        0xcad1_b2dd_0912_5a5f_800a_7b44_dd8e_7a70u128
    } else if k == 35 {
        0xd3f5_37e0_4c70_0e27_7016_c540_c190_dd74u128
    } else if k == 36 {
        0x20b0_22e1_c1d1_bc08_09bb_aa00_7aff_17a4u128
    } else if k == 37 {
        0x1c62_1e47_5a73_acae_a5ea_62f1_73a5_64deu128
    } else if k == 38 {
        0xeaab_3a58_b8a0_2fe2_c1d3_ada9_e183_a6f8u128
    } else if k == 39 {
        0xdffe_ae5c_fc85_92a2_2ee2_9c07_7314_ee0du128
    } else if k == 40 {
        0x1854_548b_b6f4_de8e_1794_c9c6_116b_ca12u128
    } else if k == 41 {
        0xa7dd_be68_af10_b36c_5046_371c_4cc9_eaa8u128
    } else if k == 42 {
        0xc7c2_0e00_75b3_4cb3_e77b_d762_0dd5_1099u128
    } else if k == 43 {
        0xeed7_a759_7ab9_140e_e385_0882_5893_0c85u128
    } else if k == 44 {
        0xd380_7dd9_d6a3_9649_d9bf_3b42_8f20_7eecu128
    } else if k == 45 {
        0x64fb_855f_c75b_066a_7d1a_daba_5830_1148u128
    } else if k == 46 {
        0x710a_093e_99bb_9946_aba3_d15b_0b67_5aaau128
    } else if k == 47 {
        0xafc2_67d9_7044_a1c8_6621_6c6f_770b_3b1eu128
    } else if k == 48 {
        0xe316_b617_7292_0218_fe1d_7816_d9eb_81fdu128
    } else if k == 49 {
        0xfbcf_8c1e_442c_8cf5_b87c_1159_421d_e6c0u128
    } else if k == 50 {
        0x4d32_8e5a_e8b1_bde5_6876_34c0_bd8f_66a6u128
    } else if k == 51 {
        0x4d75_8c29_eeb4_84f7_c8b2_1bf1_6608_e4dbu128
    } else if k == 52 {
        0x097d_a6d2_e8f7_686d_939b_5311_9c4b_7496u128
    } else if k == 53 {
        0x6048_8351_c740_3436_ccbb_31a4_58da_0423u128
    } else if k == 54 {
        0x3c58_14a4_c792_b3be_aba3_2146_9362_905fu128
    } else if k == 55 {
        0xf6fd_92c5_8b52_c44d_fbcf_513b_18b8_60f7u128
    } else if k == 56 {
        0x7402_5243_5434_bd93_e213_b075_ac78_1973u128
    } else if k == 57 {
        0xb774_0311_b014_6782_bb22_8613_7357_55a8u128
    } else if k == 58 {
        0x14a4_e774_428f_86a1_4e05_9e6f_77db_9735u128
    } else if k == 59 {
        0x9f07_d44a_e7b5_f72d_6728_ba4f_8b5a_d996u128
    } else if k == 60 {
        0x783e_0e82_7a3c_43a2_e68d_4298_70a8_6444u128
    } else if k == 61 {
        0x9ed6_f0fd_3b89_8356_ddde_f6f8_66a8_cb3au128
    } else if k == 62 {
        0x3dd4_6c13_7e3f_5775_ac6e_a526_92d6_e84fu128
    } else if k == 63 {
        0xf64e_2b2e_01a1_8185_81aa_e137_a9a1_f2acu128
    } else if k == 64 {
        0x6165_1fea_6b58_32b9_44e5_98a7_95a2_99f6u128
    } else if k == 65 {
        0x7c9d_30e6_ed40_cbc3_0e42_92c6_d87e_2a65u128
    } else if k == 66 {
        0xc2c5_7e31_da2f_f653_d47f_657d_9736_a3bcu128
    } else if k == 67 {
        0xe325_ada8_d4bf_8eff_55cb_3214_6561_a494u128
    } else if k == 68 {
        0xbf88_4491_f010_fcf9_2b42_640b_af97_546au128
    } else if k == 69 {
        0x744f_f1cc_6c41_47e9_6f55_c63e_138b_0f6au128
    } else if k == 70 {
        0xf72d_4a11_7bba_9cee_44bd_30ca_7a95_9c35u128
    } else if k == 71 {
        0x31f9_706e_56dc_d7c9_dd3c_39ec_2fcb_97ecu128
    } else if k == 72 {
        0xcafd_0f1d_ee4b_13f4_f910_4edc_7cd7_c419u128
    } else if k == 73 {
        0xc6b6_0337_3b7f_ff4c_92f4_024e_d5a0_366eu128
    } else if k == 74 {
        0xfb4b_047c_029d_81bd_e940_8400_0537_59bbu128
    } else if k == 75 {
        0x5c12_435b_486a_c2b0_022c_6b03_d1e5_2223u128
    } else if k == 76 {
        0xdeb4_8144_66d6_d456_00cb_1be4_b63b_5b3du128
    } else if k == 77 {
        0x1c8f_0314_c1ca_2c6a_2351_3800_2e3d_ec62u128
    } else if k == 78 {
        0xaa94_fa2a_07db_8f59_b4fa_968f_61ea_5bd8u128
    } else if k == 79 {
        0xbaed_1a1f_49ca_7f89_1ec3_403e_fa66_966eu128
    } else if k == 80 {
        0x79a3_d532_b4dc_a977_042a_87c2_811e_e47au128
    } else if k == 81 {
        0xca74_daf6_7fe0_c93b_1358_1fc7_a95d_f199u128
    } else if k == 82 {
        0x92d3_f219_15a2_7173_8441_bd78_c444_ed45u128
    } else if k == 83 {
        0x0525_25b1_6c4d_b307_dfc4_ce06_bfdc_e9edu128
    } else if k == 84 {
        0x59a0_44e5_4480_5b99_00ed_0844_0dda_5ebau128
    } else if k == 85 {
        0xd664_8859_781b_b4ef_7800_914c_c52e_273bu128
    } else if k == 86 {
        0x2826_6451_a0c9_c61d_9ad1_a02c_574e_9631u128
    } else if k == 87 {
        0x7c86_4767_2078_f3f4_cd3c_813a_fb78_aa38u128
    } else if k == 88 {
        0x92c0_cf34_3ae0_63ad_494f_dfab_6df4_2306u128
    } else if k == 89 {
        0x5574_a07c_ca7c_d737_aca6_f91a_6abd_e544u128
    } else if k == 90 {
        0xbbad_a747_894b_c3dd_8792_87c8_69f8_85c3u128
    } else if k == 91 {
        0x386d_b410_96f6_2a8a_f50e_0632_f2a3_5f5bu128
    } else if k == 92 {
        0xefdb_4540_5364_8225_1843_656b_2ea8_f397u128
    } else if k == 93 {
        0x8642_0456_6cee_644d_f1c5_2011_971b_40b3u128
    } else if k == 94 {
        0x9f65_220d_0c78_fc67_048e_86e3_7478_0c55u128
    } else if k == 95 {
        0x6c31_24a1_5e08_7d32_3caa_dfab_02ea_679du128
    } else if k == 96 {
        0x40e2_dfc1_4506_98ca_dca8_758e_d620_dd7bu128
    } else if k == 97 {
        0x217b_ea75_0913_f0db_29e3_0e4d_37b8_82a1u128
    } else if k == 98 {
        0x18cc_9c75_8f82_f3a6_2452_c0f0_6b2d_5154u128
    } else if k == 99 {
        0xa2f9_8895_3eba_b6d6_ff4f_c666_38b9_c77cu128
    } else if k == 100 {
        0x8b62_1a33_b1f5_5be1_b5cf_3dbe_0150_3955u128
    } else if k == 101 {
        0xa640_3e49_a18f_dcec_5bad_32ff_d131_adf1u128
    } else if k == 102 {
        0xc721_3453_b5a0_0431_8da7_ee03_5aca_c1d8u128
    } else if k == 103 {
        0xfab8_5890_c72c_f5bd_4290_8c44_5873_de98u128
    } else if k == 104 {
        0x18fb_3bc8_96b1_5739_aba9_209e_7280_2626u128
    } else if k == 105 {
        0xe2ae_4c18_bc72_d0b5_584b_1b8f_f9fd_be53u128
    } else if k == 106 {
        0xbf7f_e7e1_58f5_e6b6_27fb_bc64_7277_57a3u128
    } else if k == 107 {
        0x7434_9545_e390_b89f_c3ef_36c9_b75a_0400u128
    } else if k == 108 {
        0xb377_c704_4aeb_289d_ebaf_5667_7af1_691du128
    } else if k == 109 {
        0x0dd4_a597_abff_1c6d_46b3_da58_29a0_7e0fu128
    } else if k == 110 {
        0x390a_7a56_8592_5c88_fb31_442b_bbee_4562u128
    } else if k == 111 {
        0xef02_26d7_d8c4_f908_8d93_1140_ce80_f4cau128
    } else if k == 112 {
        0xc77a_431b_1744_2dc2_46bd_f85b_5f57_64d5u128
    } else if k == 113 {
        0xaaf5_8d85_27db_b51e_9cb6_6967_210e_f752u128
    } else if k == 114 {
        0xbea7_66c2_fd57_dce0_12c3_142c_06e2_acc1u128
    } else if k == 115 {
        0x718b_86e4_6755_b667_022b_a9c6_5acb_ed68u128
    } else if k == 116 {
        0xeba2_e73f_8e06_f46e_77a7_af91_0537_779du128
    } else if k == 117 {
        0x9a6d_9a22_e2bc_f10b_ebbd_0f52_366f_13acu128
    } else if k == 118 {
        0x3093_0047_648b_0f33_ab2b_66ce_2a82_776cu128
    } else if k == 119 {
        0xdf64_41de_141c_2ab5_6015_a35f_3e3c_8cc5u128
    } else if k == 120 {
        0x0821_6569_34ab_0df9_8a24_abe2_7faf_17b9u128
    } else if k == 121 {
        0x6186_189d_20b8_1941_8606_bb0e_2809_4f06u128
    } else if k == 122 {
        0x2cb2_ca78_e3a4_6e61_1863_7a81_b61a_75a5u128
    } else if k == 123 {
        0x34d3_4d30_8692_8aea_ebac_d53e_52b7_2998u128
    } else if k == 124 {
        0xc71c_71c3_0824_9e75_db49_0028_e7b6_cf92u128
    } else if k == 125 {
        0xebae_befb_ebae_b6db_75d7_5145_3cf3_b6acu128
    } else if k == 126 {
        0x9a69_a69a_6186_1861_8a28_a28a_1451_455au128
    } else if k == 127 {
        0x2492_4924_9249_2492_6db6_db6d_b6db_6da4u128
    } else if k == 128 {
        0x0000_0000_0000_0000_0000_0000_0000_0002u128
    } else {
        0
    }
}

proof fn lemma_x_frobenius_step(k: u64, c: u128, d: u128)
    by (bit_vector)
    requires
        k < 128,
        c == x_frobenius(k),
        d == x_frobenius((k + 1) as u64),
    ensures
        square_bits(c) == d,
{
}


proof fn lemma_spread_bits(a: u64, b: u64, m: u64, h: u128)
    by (bit_vector)
    ensures
        spread(a ^ b) == spread(a) ^ spread(b),
        spread(0) == 0,
        m < 64 ==> spread(1u64 << m) == 1u128 << ((2 * m) as u128),
        m < 64 ==> (1u128 << (m as u128)) as u64 == 1u64 << m,
        (a as u128) & !(0xffff_ffff_ffff_ffff_ffff_ffff_ffff_ffffu128 << 64u128) == a as u128,
        (a as u128) as u64 == a,
        ((a as u128) ^ h) as u64 == a ^ (h as u64),
{
}

proof fn lemma_truncate_xor(a: u128, b: u128)
    by (bit_vector)
    ensures
        (a ^ b) as u64 == (a as u64) ^ (b as u64),
{
}

/// In characteristic two the cross terms of a square cancel.
pub proof fn lemma_square_of_sum(a: u128, b: u128)
    ensures
        product(a ^ b, a ^ b) == product(a, a) ^ product(b, b),
{
    lemma_product_distributes(a ^ b, a, b);
    lemma_product_distributes(a, a, b);
    lemma_product_distributes(b, a, b);
    lemma_product_commutes(a, b);
    let (s, t, c) = (product(a, a), product(b, b), product(a, b));
    lemma_xor(s, c, c, t);
    lemma_xor(s ^ c, c, t, 0);
    lemma_xor(s, c, 0, 0);
}

proof fn lemma_spread_is_square_partial(a: u64, n: nat)
    requires
        n <= 64,
    ensures
        ({
            let r = partial_product(a as u128, 1, n);
            product(r, r) == spread(r as u64)
        }),
    decreases n,
{
    lemma_product_units(0);
    lemma_spread_bits(0, 0, 0, 0);
    if n > 0 {
        let m = (n - 1) as nat;
        lemma_spread_is_square_partial(a, m);
        let r = partial_product(a as u128, 1, m);
        let t = mul_x_pow(1, m);
        lemma_square_of_sum(r, t);
        lemma_product_mul_x_pow(1, t, m);
        lemma_product_units(t);
        crate::field::ghash_poly::lemma_mul_x_pow_add(1, m, m);
        lemma_x_pow(m);
        lemma_x_pow(2 * m);
        lemma_truncate_xor(r, t);
        lemma_spread_bits(r as u64, t as u64, m as u64, 0);
    }
}

/// Spreading the bits squares a polynomial of degree below 64.
proof fn lemma_spread_is_square(a: u64)
    ensures
        product(a as u128, a as u128) == spread(a),
{
    lemma_spread_is_square_partial(a, 64);
    lemma_partial_one_right(a as u128, 64);
    lemma_spread_bits(a, 0, 0, 0);
}

/// The bit formula for squaring is the product of an element with itself.
pub proof fn lemma_square_bits(u: u128)
    ensures
        product(u, u) == square_bits(u),
{
    let l = u as u64;
    let h = (u >> 64) as u64;
    lemma_split(u);
    lemma_schoolbook(l, h, l, h);
    lemma_carryless_is_product(l, l);
    lemma_carryless_is_product(h, h);
    lemma_carryless_is_product(l, h);
    lemma_carryless_is_product(h, l);
    lemma_product_commutes(l as u128, h as u128);
    lemma_xor(carryless_product(l, h), 0, 0, 0);
    lemma_mul_x_pow_linear(0, 0, 64);
    lemma_xor(carryless_product(l, l), 0, 0, 0);
    lemma_spread_is_square(l);
    lemma_spread_is_square(h);
    lemma_fold(spread(h));
    lemma_fold_high(spread(h));
}

/// `a^(2^k)`.
pub open spec fn frobenius(a: u128, k: nat) -> u128
    decreases k,
{
    if k == 0 {
        a
    } else {
        let b = frobenius(a, (k - 1) as nat);
        product(b, b)
    }
}

pub proof fn lemma_frobenius_homomorphism(a: u128, b: u128, k: nat)
    ensures
        frobenius(a ^ b, k) == frobenius(a, k) ^ frobenius(b, k),
        frobenius(product(a, b), k) == product(frobenius(a, k), frobenius(b, k)),
        frobenius(0, k) == 0,
        frobenius(1, k) == 1,
    decreases k,
{
    if k > 0 {
        let m = (k - 1) as nat;
        lemma_frobenius_homomorphism(a, b, m);
        let (p, q) = (frobenius(a, m), frobenius(b, m));
        lemma_square_of_sum(p, q);
        lemma_product_interchange(p, q, p, q);
        lemma_product_units(0);
        lemma_product_units(1);
    }
}

/// `(a·b)·(c·d) == (a·c)·(b·d)`.
pub proof fn lemma_product_interchange(a: u128, b: u128, c: u128, d: u128)
    ensures
        product(product(a, b), product(c, d)) == product(product(a, c), product(b, d)),
{
    lemma_product_associates(a, b, product(c, d));
    lemma_product_associates(b, c, d);
    lemma_product_commutes(b, c);
    lemma_product_associates(c, b, d);
    lemma_product_associates(a, c, product(b, d));
}

proof fn lemma_frobenius_of_x(k: nat)
    requires
        k <= 128,
    ensures
        frobenius(2, k) == x_frobenius(k as u64),
    decreases k,
{
    if k > 0 {
        let m = (k - 1) as u64;
        lemma_frobenius_of_x((k - 1) as nat);
        lemma_square_bits(x_frobenius(m));
        lemma_x_frobenius_step(m, x_frobenius(m), x_frobenius((m + 1) as u64));
    }
}

proof fn lemma_two_is_x()
    ensures
        mul_x(1) == 2,
{
    lemma_x_pow(1);
    assert(mul_x_pow(1, 0) == 1);
    assert(mul_x_pow(1, 1) == mul_x(mul_x_pow(1, 0)));
    assert(1u128 << 1u128 == 2) by (bit_vector);
}

proof fn lemma_frobenius_128_x_pow(n: nat)
    ensures
        frobenius(mul_x_pow(1, n), 128) == mul_x_pow(1, n),
    decreases n,
{
    if n == 0 {
        lemma_frobenius_homomorphism(0, 0, 128);
    } else {
        let t = mul_x_pow(1, (n - 1) as nat);
        lemma_frobenius_128_x_pow((n - 1) as nat);
        lemma_two_is_x();
        lemma_product_mul_x_left(1, t);
        lemma_product_units(t);
        lemma_frobenius_homomorphism(2, t, 128);
        lemma_frobenius_of_x(128);
    }
}

proof fn lemma_frobenius_128_partial(a: u128, n: nat)
    requires
        n <= 128,
    ensures
        frobenius(partial_product(a, 1, n), 128) == partial_product(a, 1, n),
    decreases n,
{
    lemma_frobenius_homomorphism(0, 0, 128);
    if n > 0 {
        let m = (n - 1) as nat;
        lemma_frobenius_128_partial(a, m);
        lemma_frobenius_128_x_pow(m);
        lemma_frobenius_homomorphism(partial_product(a, 1, m), mul_x_pow(1, m), 128);
    }
}

/// `a^(2^128) == a`.
pub proof fn lemma_frobenius_128(a: u128)
    ensures
        frobenius(a, 128) == a,
{
    lemma_frobenius_128_partial(a, 128);
    lemma_partial_one_right(a, 128);
}

/// `a^(2^1 + 2^2 + ... + 2^(k - 1))`.
pub open spec fn conjugate_product(a: u128, k: nat) -> u128
    decreases k,
{
    if k <= 1 {
        1
    } else {
        product(conjugate_product(a, (k - 1) as nat), frobenius(a, (k - 1) as nat))
    }
}

/// `a^2 · a^(2 + 4 + ... + 2^(k-1)) == a^(2^k)`.
proof fn lemma_conjugates_telescope(a: u128, k: nat)
    requires
        k >= 1,
    ensures
        product(product(a, a), conjugate_product(a, k)) == frobenius(a, k),
    decreases k,
{
    if k == 1 {
        lemma_product_units(product(a, a));
        reveal_with_fuel(frobenius, 2);
    } else {
        let m = (k - 1) as nat;
        lemma_conjugates_telescope(a, m);
        lemma_product_associates(product(a, a), conjugate_product(a, m), frobenius(a, m));
    }
}

/// The square of `a^(2 + ... + 2^(k-1))`, times `a^2`, is the next conjugate product.
proof fn lemma_conjugates_square(a: u128, k: nat)
    requires
        k >= 1,
    ensures
        product(
            product(a, a),
            product(conjugate_product(a, k), conjugate_product(a, k)),
        ) == conjugate_product(a, k + 1),
    decreases k,
{
    let c = conjugate_product(a, k);
    if k == 1 {
        lemma_product_units(1);
        lemma_product_units(product(a, a));
        reveal_with_fuel(conjugate_product, 2);
        reveal_with_fuel(frobenius, 2);
    } else {
        let m = (k - 1) as nat;
        let d = conjugate_product(a, m);
        let f = frobenius(a, m);
        lemma_conjugates_square(a, m);
        lemma_product_interchange(d, f, d, f);
        lemma_product_associates(product(a, a), product(d, d), product(f, f));
        assert(frobenius(a, k) == product(f, f));
        assert(conjugate_product(a, k + 1) == product(c, frobenius(a, k)));
    }
}

/// `a · a^(2^128 - 2) == 1` for every nonzero `a`.
pub proof fn lemma_inverse(a: u128)
    ensures
        a != 0 ==> product(a, conjugate_product(a, 128)) == 1,
        a == 0 ==> conjugate_product(a, 128) == 0,
{
    let c = conjugate_product(a, 128);
    let e = product(a, c);
    lemma_frobenius_128(a);
    lemma_conjugates_telescope(a, 128);
    lemma_conjugates_square(a, 128);
    // e^2 == a^2·c^2 == c · a^(2^128) == e
    lemma_product_interchange(a, c, a, c);
    lemma_product_commutes(c, a);
    assert(product(e, e) == e);
    lemma_square_bits(e);
    lemma_square_fixed_points(e);
    // a·e == a^(2^128) == a
    lemma_product_associates(a, a, c);
    lemma_product_units(a);
    if a == 0 {
        lemma_frobenius_homomorphism(0, 0, 127);
        lemma_product_units(conjugate_product(0, 127));
    }
}

} // verus!
