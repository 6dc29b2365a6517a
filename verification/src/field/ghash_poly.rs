//! Polynomials over GF(2) of degree below 128, held in a `u128` (bit `i` is the
//! coefficient of `x^i`), multiplied modulo `x^128 + x^7 + x^2 + x + 1`.
//!
//! This is the mathematical model of GF(2^128): every executable operation of
//! [`crate::field::gf2_128`] is specified by a function of this file.
use vstd::prelude::*;

verus! {

/// The coefficient of `x^i`.
pub open spec fn coeff(a: u128, i: nat) -> bool {
    (a >> (i as u128)) & 1 == 1
}

/// `x · a`: shift up by one and replace `x^128` by `x^7 + x^2 + x + 1`.
pub open spec fn mul_x(a: u128) -> u128 {
    (a << 1) ^ (if a >> 127 == 1 { 0x87u128 } else { 0u128 })
}

/// `x^n · a`.
pub open spec fn mul_x_pow(a: u128, n: nat) -> u128
    decreases n,
{
    if n == 0 {
        a
    } else {
        mul_x(mul_x_pow(a, (n - 1) as nat))
    }
}

/// `Σ_{i < n} a_i · x^i · b`, where `a_i` is the coefficient of `x^i` in `a`.
pub open spec fn partial_product(a: u128, b: u128, n: nat) -> u128
    decreases n,
{
    if n == 0 {
        0
    } else {
        let rest = partial_product(a, b, (n - 1) as nat);
        if coeff(a, (n - 1) as nat) {
            rest ^ mul_x_pow(b, (n - 1) as nat)
        } else {
            rest
        }
    }
}

/// `a · b` modulo `x^128 + x^7 + x^2 + x + 1`.
pub open spec fn product(a: u128, b: u128) -> u128 {
    partial_product(a, b, 128)
}

pub proof fn lemma_xor(a: u128, b: u128, c: u128, d: u128)
    by (bit_vector)
    ensures
        a ^ b == b ^ a,
        (a ^ b) ^ c == a ^ (b ^ c),
        a ^ a == 0,
        a ^ 0 == a,
        0 ^ a == a,
        (a ^ b) ^ b == a,
        (a ^ b) ^ (c ^ d) == (a ^ c) ^ (b ^ d),
        (a ^ b) ^ (a ^ d) == b ^ d,
{
}

proof fn lemma_mul_x_bits(a: u128, b: u128, i: u128)
    by (bit_vector)
    ensures
        mul_x(a ^ b) == mul_x(a) ^ mul_x(b),
        mul_x(0) == 0,
        (0u128 >> i) & 1 == 0,
        ((a ^ b) >> i) & 1 == ((a >> i) & 1) ^ ((b >> i) & 1),
        (a >> i) & 1 == 0 || (a >> i) & 1 == 1,
        1u128 ^ 1u128 == 0,
        1u128 ^ 0u128 == 1,
        0u128 ^ 1u128 == 1,
        0u128 ^ 0u128 == 0,
        (1u128 >> 0u128) & 1 == 1,
        0 < i < 128 ==> (1u128 >> i) & 1 == 0,
        ((a << 1) >> 0u128) & 1 == 0,
        mul_x(a) == (a << 1) ^ (if (a >> 127) & 1 == 1 { 0x87u128 } else { 0u128 }),
{
}

/// The polynomial of the terms of `a` below `x^i`.
pub open spec fn low_part(a: u128, i: u128) -> u128 {
    a & !(0xffff_ffff_ffff_ffff_ffff_ffff_ffff_ffffu128 << i)
}

proof fn lemma_mask_bits(a: u128, i: u128)
    by (bit_vector)
    requires
        i < 128,
    ensures
        i < 127 ==> mul_x(1u128 << i) == 1u128 << ((i + 1) as u128),
        i == 127 ==> mul_x(1u128 << i) == 0x87,
        1u128 << 0u128 == 1,
        i < 127 ==> ((a << 1) >> ((i + 1) as u128)) & 1 == (a >> i) & 1,
        i < 127 && (a >> i) & 1 == 1 ==> low_part(a, i) ^ (1u128 << i) == low_part(
            a,
            (i + 1) as u128,
        ),
        i < 127 && (a >> i) & 1 == 0 ==> low_part(a, i) == low_part(a, (i + 1) as u128),
        i == 127 && (a >> i) & 1 == 1 ==> low_part(a, i) ^ (1u128 << i) == a,
        i == 127 && (a >> i) & 1 == 0 ==> low_part(a, i) == a,
        low_part(a, 0) == 0,
{
}


proof fn lemma_coeff_xor(a: u128, b: u128, i: nat)
    requires
        i < 128,
    ensures
        coeff(a ^ b, i) == (coeff(a, i) != coeff(b, i)),
        !coeff(0, i),
{
    lemma_mul_x_bits(a, b, i as u128);
    lemma_mul_x_bits(b, a, i as u128);
}

pub proof fn lemma_mul_x_pow_linear(a: u128, b: u128, n: nat)
    ensures
        mul_x_pow(a ^ b, n) == mul_x_pow(a, n) ^ mul_x_pow(b, n),
        mul_x_pow(0, n) == 0,
    decreases n,
{
    if n > 0 {
        let m = (n - 1) as nat;
        lemma_mul_x_pow_linear(a, b, m);
        lemma_mul_x_bits(mul_x_pow(a, m), mul_x_pow(b, m), 0);
    }
}

pub proof fn lemma_mul_x_pow_add(a: u128, m: nat, n: nat)
    ensures
        mul_x_pow(mul_x_pow(a, m), n) == mul_x_pow(a, m + n),
        mul_x_pow(mul_x(a), n) == mul_x_pow(a, n + 1),
    decreases n,
{
    if n > 0 {
        lemma_mul_x_pow_add(a, m, (n - 1) as nat);
    }
    if n == 0 {
        assert(mul_x_pow(a, 0) == a);
    }
}

/// `x^n` for `n < 128` is the single bit `n`.
pub proof fn lemma_x_pow(n: nat)
    requires
        n <= 128,
    ensures
        n < 128 ==> mul_x_pow(1, n) == 1u128 << (n as u128),
        n == 128 ==> mul_x_pow(1, n) == 0x87,
    decreases n,
{
    if n == 0 {
        lemma_mask_bits(0, 0);
    } else {
        lemma_x_pow((n - 1) as nat);
        lemma_mask_bits(0, (n - 1) as u128);
    }
}

proof fn lemma_partial_linear_right(a: u128, b: u128, c: u128, n: nat)
    ensures
        partial_product(a, b ^ c, n) == partial_product(a, b, n) ^ partial_product(a, c, n),
        partial_product(a, 0, n) == 0,
    decreases n,
{
    if n > 0 {
        let m = (n - 1) as nat;
        lemma_partial_linear_right(a, b, c, m);
        lemma_mul_x_pow_linear(b, c, m);
        lemma_xor(
            partial_product(a, b, m),
            partial_product(a, c, m),
            mul_x_pow(b, m),
            mul_x_pow(c, m),
        );
        lemma_xor(0, 0, 0, 0);
    } else {
        lemma_xor(0, 0, 0, 0);
    }
}

proof fn lemma_partial_linear_left(a: u128, c: u128, b: u128, n: nat)
    requires
        n <= 128,
    ensures
        partial_product(a ^ c, b, n) == partial_product(a, b, n) ^ partial_product(c, b, n),
        partial_product(0, b, n) == 0,
    decreases n,
{
    if n > 0 {
        let m = (n - 1) as nat;
        lemma_partial_linear_left(a, c, b, m);
        lemma_coeff_xor(a, c, m);
        let p = partial_product(a, b, m);
        let q = partial_product(c, b, m);
        let t = mul_x_pow(b, m);
        lemma_xor(p, q, t, t);
        lemma_xor(p, t, q, 0);
        lemma_xor(p ^ q, t, 0, 0);
        lemma_xor(t, q, 0, 0);
    } else {
        lemma_xor(0, 0, 0, 0);
    }
}

proof fn lemma_partial_mul_x_right(a: u128, b: u128, n: nat)
    ensures
        partial_product(a, mul_x(b), n) == mul_x(partial_product(a, b, n)),
    decreases n,
{
    lemma_mul_x_bits(0, 0, 0);
    if n > 0 {
        let m = (n - 1) as nat;
        lemma_partial_mul_x_right(a, b, m);
        lemma_mul_x_pow_add(b, 0, m);
        lemma_mul_x_bits(partial_product(a, b, m), mul_x_pow(b, m), 0);
    }
}

proof fn lemma_partial_one_left(b: u128, n: nat)
    requires
        1 <= n <= 128,
    ensures
        partial_product(1, b, n) == b,
    decreases n,
{
    if n == 1 {
        lemma_mul_x_bits(0, 0, 0);
        lemma_xor(b, 0, 0, 0);
        reveal_with_fuel(partial_product, 2);
        assert(mul_x_pow(b, 0) == b);
    } else {
        lemma_partial_one_left(b, (n - 1) as nat);
        lemma_mul_x_bits(0, 0, (n - 1) as u128);
    }
}

pub proof fn lemma_partial_one_right(a: u128, n: nat)
    requires
        n <= 128,
    ensures
        n < 128 ==> partial_product(a, 1, n) == low_part(a, n as u128),
        n == 128 ==> partial_product(a, 1, n) == a,
    decreases n,
{
    if n == 0 {
        lemma_mask_bits(a, 0);
    } else {
        let m = (n - 1) as nat;
        lemma_partial_one_right(a, m);
        lemma_x_pow(m);
        lemma_mask_bits(a, m as u128);
        lemma_mul_x_bits(a, 0, m as u128);
    }
}

/// `x^128 · b` computed by the operator equals `(x^7 + x^2 + x + 1) · b`.
spec fn fold_defect(b: u128) -> u128 {
    (mul_x_pow(b, 128) ^ mul_x_pow(b, 7)) ^ (mul_x_pow(b, 2) ^ (mul_x_pow(b, 1) ^ b))
}

proof fn lemma_fold_defect_linear(a: u128, b: u128)
    ensures
        fold_defect(a ^ b) == fold_defect(a) ^ fold_defect(b),
        fold_defect(mul_x(b)) == mul_x(fold_defect(b)),
        fold_defect(0) == 0,
{
    let (a4, a3, a2, a1) = (
        mul_x_pow(a, 128),
        mul_x_pow(a, 7),
        mul_x_pow(a, 2),
        mul_x_pow(a, 1),
    );
    let (b4, b3, b2, b1) = (
        mul_x_pow(b, 128),
        mul_x_pow(b, 7),
        mul_x_pow(b, 2),
        mul_x_pow(b, 1),
    );
    lemma_mul_x_pow_linear(a, b, 128);
    lemma_mul_x_pow_linear(a, b, 7);
    lemma_mul_x_pow_linear(a, b, 2);
    lemma_mul_x_pow_linear(a, b, 1);
    lemma_xor(a1, b1, a, b);
    lemma_xor(a2, b2, a1 ^ a, b1 ^ b);
    lemma_xor(a4, b4, a3, b3);
    lemma_xor(a4 ^ a3, b4 ^ b3, a2 ^ (a1 ^ a), b2 ^ (b1 ^ b));
    lemma_mul_x_pow_add(b, 0, 128);
    lemma_mul_x_pow_add(b, 0, 7);
    lemma_mul_x_pow_add(b, 0, 2);
    lemma_mul_x_pow_add(b, 0, 1);
    lemma_mul_x_bits(b4, b3, 0);
    lemma_mul_x_bits(b1, b, 0);
    lemma_mul_x_bits(b2, b1 ^ b, 0);
    lemma_mul_x_bits(b4 ^ b3, b2 ^ (b1 ^ b), 0);
    lemma_xor(0, 0, 0, 0);
}

proof fn lemma_fold_defect_x_pow(n: nat)
    ensures
        fold_defect(mul_x_pow(1, n)) == 0,
    decreases n,
{
    if n == 0 {
        lemma_x_pow(128);
        lemma_x_pow(7);
        lemma_x_pow(2);
        lemma_x_pow(1);
        lemma_fold_defect_one();
        assert(mul_x_pow(1, 0) == 1);
    } else {
        lemma_fold_defect_x_pow((n - 1) as nat);
        lemma_fold_defect_linear(0, mul_x_pow(1, (n - 1) as nat));
        lemma_mul_x_bits(0, 0, 0);
    }
}

proof fn lemma_fold_defect_one()
    by (bit_vector)
    ensures
        (0x87u128 ^ (1u128 << 7u128)) ^ ((1u128 << 2u128) ^ ((1u128 << 1u128) ^ 1u128)) == 0,
        0x87u128 == 1u128 ^ (1u128 << 1u128) ^ (1u128 << 2u128) ^ (1u128 << 7u128),
{
}

proof fn lemma_fold_defect_zero(b: u128, n: nat)
    requires
        n <= 128,
    ensures
        fold_defect(partial_product(b, 1, n)) == 0,
        n == 128 ==> fold_defect(b) == 0,
    decreases n,
{
    lemma_xor(0, 0, 0, 0);
    lemma_fold_defect_linear(0, 0);
    if n > 0 {
        let m = (n - 1) as nat;
        lemma_fold_defect_zero(b, m);
        lemma_fold_defect_x_pow(m);
        lemma_fold_defect_linear(partial_product(b, 1, m), mul_x_pow(1, m));
        lemma_partial_one_right(b, n);
    }
}

proof fn lemma_partial_x_pow_left(b: u128, k: nat, n: nat)
    requires
        k < 128,
        n <= 128,
    ensures
        n <= k ==> partial_product(1u128 << (k as u128), b, n) == 0,
        n > k ==> partial_product(1u128 << (k as u128), b, n) == mul_x_pow(b, k),
    decreases n,
{
    lemma_xor(mul_x_pow(b, k), 0, 0, 0);
    if n > 0 {
        let m = (n - 1) as nat;
        lemma_partial_x_pow_left(b, k, m);
        lemma_single_bit(k as u128, m as u128);
    }
}

proof fn lemma_single_bit(k: u128, i: u128)
    by (bit_vector)
    requires
        k < 128,
        i < 128,
    ensures
        k != i ==> ((1u128 << k) >> i) & 1 == 0,
        k == i ==> ((1u128 << k) >> i) & 1 == 1,
{
}

proof fn lemma_partial_shifted(a: u128, b: u128, n: nat)
    requires
        n <= 127,
    ensures
        partial_product(a << 1, b, n + 1) == mul_x(partial_product(a, b, n)),
    decreases n,
{
    lemma_mul_x_bits(a, 0, 0);
    if n == 0 {
        reveal_with_fuel(partial_product, 2);
        lemma_mul_x_bits(0, 0, 0);
    } else {
        let m = (n - 1) as nat;
        lemma_partial_shifted(a, b, m);
        lemma_mask_bits(a, m as u128);
        lemma_mul_x_bits(partial_product(a, b, m), mul_x_pow(b, m), 0);
    }
}

/// `(x · a) · b == x · (a · b)`.
pub proof fn lemma_product_mul_x_left(a: u128, b: u128)
    ensures
        product(mul_x(a), b) == mul_x(product(a, b)),
{
    lemma_partial_shifted(a, b, 127);
    lemma_mul_x_bits(a, 0, 127);
    let p = partial_product(a, b, 127);
    assert(partial_product(a << 1, b, 128) == mul_x(p));
    if coeff(a, 127) {
        lemma_partial_linear_left(a << 1, 0x87, b, 128);
        lemma_fold_defect_one();
        lemma_partial_linear_left(1u128 ^ (1u128 << 1u128) ^ (1u128 << 2u128), 1u128 << 7u128, b, 128);
        lemma_partial_linear_left(1u128 ^ (1u128 << 1u128), 1u128 << 2u128, b, 128);
        lemma_partial_linear_left(1u128, 1u128 << 1u128, b, 128);
        lemma_partial_one_left(b, 128);
        lemma_partial_x_pow_left(b, 1, 128);
        lemma_partial_x_pow_left(b, 2, 128);
        lemma_partial_x_pow_left(b, 7, 128);
        lemma_fold_defect_zero(b, 128);
        lemma_mul_x_bits(p, mul_x_pow(b, 127), 0);
        let (t7, t2, t1, t0) = (mul_x_pow(b, 7), mul_x_pow(b, 2), mul_x_pow(b, 1), b);
        lemma_fold_rearrange(mul_x_pow(b, 128), t7, t2, t1, t0);
        assert(product(mul_x(a), b) == mul_x(p) ^ mul_x_pow(b, 128));
        assert(mul_x_pow(b, 128) == mul_x(mul_x_pow(b, 127)));
    } else {
        lemma_xor(a << 1, 0, 0, 0);
    }
}

proof fn lemma_fold_rearrange(t128: u128, t7: u128, t2: u128, t1: u128, t0: u128)
    by (bit_vector)
    requires
        (t128 ^ t7) ^ (t2 ^ (t1 ^ t0)) == 0,
    ensures
        ((t0 ^ t1) ^ t2) ^ t7 == t128,
{
}

pub proof fn lemma_product_mul_x_pow(a: u128, b: u128, n: nat)
    ensures
        product(mul_x_pow(a, n), b) == mul_x_pow(product(a, b), n),
        product(a, mul_x_pow(b, n)) == mul_x_pow(product(a, b), n),
    decreases n,
{
    if n > 0 {
        let m = (n - 1) as nat;
        lemma_product_mul_x_pow(a, b, m);
        lemma_product_mul_x_left(mul_x_pow(a, m), b);
        lemma_partial_mul_x_right(a, mul_x_pow(b, m), 128);
    }
}

/// `1` is neutral and `0` absorbing.
pub proof fn lemma_product_units(a: u128)
    ensures
        product(1, a) == a,
        product(a, 1) == a,
        product(0, a) == 0,
        product(a, 0) == 0,
{
    lemma_partial_one_left(a, 128);
    lemma_partial_one_right(a, 128);
    lemma_partial_linear_left(0, 0, a, 128);
    lemma_partial_linear_right(a, 0, 0, 128);
}

/// Multiplication distributes over addition on both sides.
pub proof fn lemma_product_distributes(a: u128, b: u128, c: u128)
    ensures
        product(a, b ^ c) == product(a, b) ^ product(a, c),
        product(b ^ c, a) == product(b, a) ^ product(c, a),
{
    lemma_partial_linear_right(a, b, c, 128);
    lemma_partial_linear_left(b, c, a, 128);
}

proof fn lemma_product_commutes_partial(a: u128, b: u128, n: nat)
    requires
        n <= 128,
    ensures
        product(partial_product(a, 1, n), b) == product(b, partial_product(a, 1, n)),
    decreases n,
{
    lemma_product_units(b);
    if n > 0 {
        let m = (n - 1) as nat;
        lemma_product_commutes_partial(a, b, m);
        let r = partial_product(a, 1, m);
        let t = mul_x_pow(1, m);
        lemma_product_distributes(b, r, t);
        lemma_product_mul_x_pow(1, b, m);
        lemma_product_mul_x_pow(b, 1, m);
    }
}

/// Multiplication is commutative.
pub proof fn lemma_product_commutes(a: u128, b: u128)
    ensures
        product(a, b) == product(b, a),
{
    lemma_product_commutes_partial(a, b, 128);
    lemma_partial_one_right(a, 128);
}

proof fn lemma_product_associates_partial(a: u128, b: u128, c: u128, n: nat)
    requires
        n <= 128,
    ensures
        product(product(partial_product(a, 1, n), b), c) == product(
            partial_product(a, 1, n),
            product(b, c),
        ),
    decreases n,
{
    lemma_product_units(b);
    lemma_product_units(c);
    lemma_product_units(product(b, c));
    if n > 0 {
        let m = (n - 1) as nat;
        lemma_product_associates_partial(a, b, c, m);
        let r = partial_product(a, 1, m);
        let t = mul_x_pow(1, m);
        lemma_product_distributes(b, r, t);
        lemma_product_distributes(c, product(r, b), product(t, b));
        lemma_product_distributes(product(b, c), r, t);
        lemma_product_mul_x_pow(1, b, m);
        lemma_product_mul_x_pow(b, c, m);
        lemma_product_mul_x_pow(1, product(b, c), m);
    }
}

/// Multiplication is associative.
pub proof fn lemma_product_associates(a: u128, b: u128, c: u128)
    ensures
        product(product(a, b), c) == product(a, product(b, c)),
{
    lemma_product_associates_partial(a, b, c, 128);
    lemma_partial_one_right(a, 128);
}


/// `Σ_{i < n} a_i · x^i · b` over GF(2)[x], with no reduction.
pub open spec fn carryless_partial(a: u64, b: u64, n: nat) -> u128
    decreases n,
{
    if n == 0 {
        0
    } else {
        carryless_partial(a, b, (n - 1) as nat) ^ (if (a >> ((n - 1) as u64)) & 1 == 1 {
            (b as u128) << ((n - 1) as u128)
        } else {
            0u128
        })
    }
}

/// The product of two polynomials of degree below 64 over GF(2)[x].
pub open spec fn carryless_product(a: u64, b: u64) -> u128 {
    carryless_partial(a, b, 64)
}

/// The polynomial whose low 64 coefficients are `lo` and whose high ones are `hi`.
pub open spec fn join(lo: u64, hi: u64) -> u128 {
    ((hi as u128) << 64) | (lo as u128)
}

proof fn lemma_half_bits(a: u64, i: u64)
    by (bit_vector)
    ensures
        i < 64 ==> ((a as u128) >> (i as u128)) & 1 == ((a >> i) & 1) as u128,
        64 <= i < 128 ==> ((a as u128) >> (i as u128)) & 1 == 0,
        (a as u128) << 0u128 == a as u128,
        i < 64 ==> mul_x((a as u128) << (i as u128)) == (a as u128) << ((i + 1) as u128),
{
}

pub proof fn lemma_mul_x_pow_half(a: u64, n: nat)
    requires
        n <= 64,
    ensures
        mul_x_pow(a as u128, n) == (a as u128) << (n as u128),
    decreases n,
{
    lemma_half_bits(a, 0);
    if n > 0 {
        lemma_mul_x_pow_half(a, (n - 1) as nat);
        lemma_half_bits(a, (n - 1) as u64);
    }
}

proof fn lemma_carryless_is_partial(a: u64, b: u64, n: nat)
    requires
        n <= 128,
    ensures
        n <= 64 ==> carryless_partial(a, b, n) == partial_product(a as u128, b as u128, n),
        n > 64 ==> carryless_product(a, b) == partial_product(a as u128, b as u128, n),
    decreases n,
{
    if n > 0 {
        let m = (n - 1) as nat;
        lemma_carryless_is_partial(a, b, m);
        lemma_half_bits(a, m as u64);
        lemma_xor(carryless_partial(a, b, m), 0, 0, 0);
        if n <= 64 {
            lemma_mul_x_pow_half(b, m);
        }
    }
}

/// Below degree 64 the field product is the plain polynomial product.
pub proof fn lemma_carryless_is_product(a: u64, b: u64)
    ensures
        carryless_product(a, b) == product(a as u128, b as u128),
{
    lemma_carryless_is_partial(a, b, 128);
}

pub proof fn lemma_join(lo: u64, hi: u64, lo2: u64, hi2: u64)
    by (bit_vector)
    ensures
        join(lo, hi) == (lo as u128) ^ ((hi as u128) << 64u128),
        join(lo ^ lo2, hi ^ hi2) == join(lo, hi) ^ join(lo2, hi2),
        join(lo, hi) as u64 == lo,
        (join(lo, hi) >> 64) as u64 == hi,
        join(lo, 0) == lo as u128,
        join(0, 0) == 0,
{
}

pub proof fn lemma_split(u: u128)
    by (bit_vector)
    ensures
        join(u as u64, (u >> 64) as u64) == u,
        u == ((u as u64) as u128) ^ ((((u >> 64) as u64) as u128) << 64u128),
{
}

/// `x^64` times a polynomial, split into what stays below `x^128` and what does not.
pub proof fn lemma_mul_x_pow_64(c: u128)
    ensures
        mul_x_pow(c, 64) == join(0, c as u64) ^ product(((c >> 64) as u64) as u128, 0x87),
{
    let l = c as u64;
    let h = (c >> 64) as u64;
    lemma_split(c);
    lemma_mul_x_pow_half(l, 64);
    lemma_mul_x_pow_half(h, 64);
    lemma_mul_x_pow_linear(l as u128, (h as u128) << 64u128, 64);
    lemma_mul_x_pow_add(h as u128, 64, 64);
    lemma_x_pow(128);
    lemma_product_mul_x_pow(h as u128, 1, 128);
    lemma_product_units(h as u128);
    lemma_join(0, l, 0, 0);
    lemma_xor((l as u128) << 64u128, 0, 0, 0);
}

/// The schoolbook product: four products of halves, weighted by `1`, `x^64` and `x^128`.
pub proof fn lemma_schoolbook(a0: u64, a1: u64, b0: u64, b1: u64)
    ensures
        product(join(a0, a1), join(b0, b1)) == (carryless_product(a0, b0) ^ mul_x_pow(
            carryless_product(a0, b1) ^ carryless_product(a1, b0),
            64,
        )) ^ mul_x_pow(carryless_product(a1, b1), 128),
{
    let (p0, q0, p1, q1) = (a0 as u128, b0 as u128, a1 as u128, b1 as u128);
    lemma_join(a0, a1, 0, 0);
    lemma_join(b0, b1, 0, 0);
    lemma_mul_x_pow_half(a1, 64);
    lemma_mul_x_pow_half(b1, 64);
    let s1 = mul_x_pow(p1, 64);
    let t1 = mul_x_pow(q1, 64);
    lemma_product_distributes(join(b0, b1), p0, s1);
    lemma_product_distributes(p0, q0, t1);
    lemma_product_distributes(s1, q0, t1);
    lemma_product_mul_x_pow(p0, q1, 64);
    lemma_product_mul_x_pow(p1, q0, 64);
    lemma_product_mul_x_pow(p1, t1, 64);
    lemma_product_mul_x_pow(p1, q1, 64);
    lemma_mul_x_pow_add(product(p1, q1), 64, 64);
    lemma_carryless_is_product(a0, b0);
    lemma_carryless_is_product(a0, b1);
    lemma_carryless_is_product(a1, b0);
    lemma_carryless_is_product(a1, b1);
    lemma_mul_x_pow_linear(product(p0, q1), product(p1, q0), 64);
    let (u, v, w, z) = (
        product(p0, q0),
        mul_x_pow(product(p0, q1), 64),
        mul_x_pow(product(p1, q0), 64),
        mul_x_pow(product(p1, q1), 128),
    );
    lemma_xor(u ^ v, w, z, 0);
    lemma_xor(u, v, w, 0);
}

/// `x^128 · h` by shifts: `h + x·h + x^2·h + x^7·h`.
pub open spec fn fold_small(t: u128) -> u128 {
    t ^ (t << 1) ^ (t << 2) ^ (t << 7)
}

proof fn lemma_mul_x_pow_small_step(h: u128, k: u128)
    by (bit_vector)
    requires
        1 <= k <= 6,
    ensures
        mul_x(h) == (h << 1u128) ^ fold_small(h >> 127u128),
        mul_x((h << k) ^ fold_small(h >> ((128 - k) as u128))) == (h << ((k + 1) as u128))
            ^ fold_small(h >> ((127 - k) as u128)),
{
}

proof fn lemma_mul_x_pow_small(h: u128, k: nat)
    requires
        1 <= k <= 7,
    ensures
        mul_x_pow(h, k) == (h << (k as u128)) ^ fold_small(h >> ((128 - k) as u128)),
    decreases k,
{
    lemma_mul_x_pow_small_step(h, 1);
    if k == 1 {
        reveal_with_fuel(mul_x_pow, 2);
    } else {
        lemma_mul_x_pow_small(h, (k - 1) as nat);
        lemma_mul_x_pow_small_step(h, (k - 1) as u128);
    }
}

/// `x^128 · h == h + x·h + x^2·h + x^7·h`.
pub proof fn lemma_fold(h: u128)
    ensures
        product(h, 0x87) == ((h ^ mul_x_pow(h, 1)) ^ mul_x_pow(h, 2)) ^ mul_x_pow(h, 7),
        product(h, 0x87) == mul_x_pow(h, 128),
        product(h, 0x87) == ((h ^ ((h << 1u128) ^ fold_small(h >> 127u128))) ^ ((h << 2u128)
            ^ fold_small(h >> 126u128))) ^ ((h << 7u128) ^ fold_small(h >> 121u128)),
{
    lemma_fold_defect_zero(h, 128);
    lemma_fold_rearrange(
        mul_x_pow(h, 128),
        mul_x_pow(h, 7),
        mul_x_pow(h, 2),
        mul_x_pow(h, 1),
        h,
    );
    lemma_x_pow(128);
    lemma_product_mul_x_pow(h, 1, 128);
    lemma_product_units(h);
    lemma_mul_x_pow_small(h, 1);
    lemma_mul_x_pow_small(h, 2);
    lemma_mul_x_pow_small(h, 7);
}


/// `x^128 · h`, by shifts.
pub open spec fn fold_high(h: u128) -> u128 {
    h ^ (h << 1) ^ (h << 2) ^ (h << 7) ^ fold_small((h >> 127) ^ (h >> 126) ^ (h >> 121))
}

pub proof fn lemma_fold_high(h: u128)
    ensures
        product(h, 0x87) == fold_high(h),
{
    lemma_fold(h);
    lemma_fold_high_bits(h);
}

proof fn lemma_fold_high_bits(h: u128)
    by (bit_vector)
    ensures
        fold_high(h) == ((h ^ ((h << 1u128) ^ fold_small(h >> 127u128))) ^ ((h << 2u128)
            ^ fold_small(h >> 126u128))) ^ ((h << 7u128) ^ fold_small(h >> 121u128)),
{
}

/// The product by halves, with the high part folded back by shifts.
pub open spec fn product_by_halves(a0: u64, a1: u64, b0: u64, b1: u64) -> u128 {
    (carryless_product(a0, b0) ^ ((carryless_product(a0, b1) ^ carryless_product(a1, b0))
        << 64u128)) ^ fold_high(
        carryless_product(a1, b1) ^ ((carryless_product(a0, b1) ^ carryless_product(a1, b0))
            >> 64u128),
    )
}

proof fn lemma_shift_64(c: u128)
    by (bit_vector)
    ensures
        join(0, c as u64) == c << 64u128,
        ((c >> 64) as u64) as u128 == c >> 64u128,
{
}

pub proof fn lemma_product_by_halves(a0: u64, a1: u64, b0: u64, b1: u64)
    ensures
        product(join(a0, a1), join(b0, b1)) == product_by_halves(a0, a1, b0, b1),
{
    let ll = carryless_product(a0, b0);
    let hh = carryless_product(a1, b1);
    let cross = carryless_product(a0, b1) ^ carryless_product(a1, b0);
    lemma_schoolbook(a0, a1, b0, b1);
    lemma_mul_x_pow_64(cross);
    lemma_shift_64(cross);
    lemma_fold(hh);
    let c1 = cross >> 64u128;
    lemma_product_distributes(0x87, hh, c1);
    lemma_fold_high(hh ^ c1);
    let (p, q, s) = (product(hh, 0x87), product(c1, 0x87), cross << 64u128);
    lemma_xor(ll, s, q, p);
    lemma_xor(ll ^ s, q, p, 0);
    lemma_xor(q, p, 0, 0);
    lemma_xor(ll ^ s, p, q, 0);
}

} // verus!
