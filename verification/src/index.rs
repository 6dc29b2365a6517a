//! Powers of two and the bits of an index.
use vstd::arithmetic::div_mod::{
    lemma_div_denominator, lemma_fundamental_div_mod, lemma_fundamental_div_mod_converse,
    lemma_mod_bound,
};
use vstd::arithmetic::power2::{
    lemma2_to64, lemma_pow2_adds, lemma_pow2_pos, lemma_pow2_strictly_increases,
    lemma_pow2_unfold, pow2,
};
use vstd::prelude::*;

verus! {

/// Bit `j` of the index `i`.
pub open spec fn index_bit(i: nat, j: nat) -> bool {
    (i / pow2(j)) % 2 == 1
}

/// Whether `n` is a power of two.
pub open spec fn power_of_two(n: nat) -> bool {
    exists|k: nat| n == #[trigger] pow2(k)
}

/// The exponent of a power of two.
pub open spec fn log2(n: nat) -> nat {
    choose|k: nat| n == #[trigger] pow2(k)
}

pub proof fn lemma_log2(k: nat)
    ensures
        log2(pow2(k)) == k,
        power_of_two(pow2(k)),
{
    let m = log2(pow2(k));
    assert(pow2(k) == pow2(m));
    if m < k {
        lemma_pow2_strictly_increases(m, k);
    }
    if k < m {
        lemma_pow2_strictly_increases(k, m);
    }
}

/// `2^k`.
#[inline]
pub fn pow2_usize(k: usize) -> (r: usize)
    requires
        pow2(k as nat) <= usize::MAX,
    ensures
        r == pow2(k as nat),
        r > 0,
{
    proof {
        lemma_pow2_fits(k as nat);
        vstd::bits::lemma_usize_shl_is_mul(1, k);
        lemma_pow2_pos(k as nat);
    }
    1usize << k
}

/// A power of two that fits a `usize` has an exponent below its width.
pub proof fn lemma_pow2_fits(k: nat)
    requires
        pow2(k) <= usize::MAX,
    ensures
        k < usize::BITS,
        k < 64,
{
    lemma2_to64();
    if k >= 64 {
        if k > 64 {
            lemma_pow2_strictly_increases(64, k);
        }
        vstd::arithmetic::power2::lemma2_to64_rest();
    }
    if usize::BITS == 32 && k >= 32 {
        if k > 32 {
            lemma_pow2_strictly_increases(32, k);
        }
    }
}

/// An exponent below the width of a `usize` gives a power of two that fits one.
pub proof fn lemma_pow2_of_width(k: nat)
    ensures
        k < usize::BITS <==> pow2(k) <= usize::MAX,
{
    lemma2_to64();
    vstd::arithmetic::power2::lemma2_to64_rest();
    if k < usize::BITS {
        if k < usize::BITS - 1 {
            lemma_pow2_strictly_increases(k, (usize::BITS - 1) as nat);
        }
    } else if pow2(k) <= usize::MAX {
        lemma_pow2_fits(k);
    }
}

/// The exponent of a power of two.
pub fn log2_pow2(n: usize) -> (k: usize)
    requires
        power_of_two(n as nat),
    ensures
        n == pow2(k as nat),
        k == log2(n as nat),
        k < usize::BITS,
        k < 64,
{
    let ghost e = log2(n as nat);
    proof {
        lemma_pow2_pos(e);
        lemma2_to64();
    }
    let mut k: usize = 0;
    let mut m: usize = n;
    while m > 1
        invariant
            n == pow2(e),
            e == log2(n as nat),
            k <= e,
            m == pow2((e - k) as nat),
        decreases m,
    {
        proof {
            lemma_pow2_fits(e);
            if e == k {
                lemma2_to64();
            }
            lemma_pow2_unfold((e - k) as nat);
        }
        m = m / 2;
        k = k + 1;
    }
    proof {
        if e > k {
            lemma2_to64();
            lemma_pow2_unfold((e - k) as nat);
            lemma_pow2_pos((e - k - 1) as nat);
        }
        lemma_pow2_fits(e);
    }
    k
}

/// Whether bit `j` of `i` is set.
#[inline]
pub fn bit_is_set(i: usize, j: usize) -> (r: bool)
    requires
        j < usize::BITS,
    ensures
        r == index_bit(i as nat, j as nat),
{
    proof {
        vstd::bits::lemma_usize_shr_is_div(i, j);
        let q: usize = i >> j;
        vstd::bits::lemma_usize_low_bits_mask_is_mod(q, 1);
        vstd::bits::lemma_low_bits_mask_values();
        lemma2_to64();
    }
    (i >> j) & 1 == 1
}

/// The bits of `2·i` and `2·i + 1`.
pub proof fn lemma_double_bits(i: nat, j: nat)
    ensures
        index_bit(2 * i, j + 1) == index_bit(i, j),
        index_bit(2 * i + 1, j + 1) == index_bit(i, j),
        !index_bit(2 * i, 0),
        index_bit(2 * i + 1, 0),
        (2 * i) / pow2(j + 1) == i / pow2(j),
        (2 * i + 1) / pow2(j + 1) == i / pow2(j),
{
    lemma2_to64();
    lemma_pow2_pos(j);
    lemma_pow2_unfold(j + 1);
    let p = pow2(j) as int;
    lemma_div_denominator(2 * i as int, 2, p);
    lemma_div_denominator(2 * i + 1 as int, 2, p);
    assert((2 * i as int) / 2 == i);
    assert((2 * i + 1) / 2 == i);
}

/// The bits of `i + 2^n` for `i < 2^n`.
pub proof fn lemma_high_bit(i: nat, n: nat, j: nat)
    requires
        i < pow2(n),
    ensures
        j < n ==> index_bit(i + pow2(n), j) == index_bit(i, j),
        index_bit(i + pow2(n), n),
        j >= n ==> !index_bit(i, j),
        j > n ==> !index_bit(i + pow2(n), j),
{
    lemma_pow2_pos(n);
    lemma_pow2_pos(j);
    lemma2_to64();
    if j < n {
        let d = (n - j) as nat;
        lemma_pow2_adds(j, d);
        lemma_pow2_unfold(d);
        let (p, q) = (pow2(j) as int, pow2((d - 1) as nat) as int);
        let a = i as int / p;
        lemma_fundamental_div_mod(i as int, p);
        assert(i + pow2(n) == (a + 2 * q) * p + (i as int % p)) by (nonlinear_arith)
            requires
                i == p * a + (i as int % p),
                pow2(n) == p * (2 * q),
        ;
        lemma_mod_bound(i as int, p);
        lemma_fundamental_div_mod_converse((i + pow2(n)) as int, p, a + 2 * q, i as int % p);
        assert((a + 2 * q) % 2 == a % 2);
    }
    lemma_fundamental_div_mod_converse((i + pow2(n)) as int, pow2(n) as int, 1, i as int);
    lemma_fundamental_div_mod_converse(i as int, pow2(n) as int, 0, i as int);
    if j > n {
        lemma_pow2_strictly_increases(n, j);
        lemma_pow2_unfold((n + 1) as nat);
        if j > n + 1 {
            lemma_pow2_strictly_increases((n + 1) as nat, j);
        }
        lemma_fundamental_div_mod_converse(i as int, pow2(j) as int, 0, i as int);
        lemma_fundamental_div_mod_converse(
            (i + pow2(n)) as int,
            pow2(j) as int,
            0,
            (i + pow2(n)) as int,
        );
    }
}

/// `i / 2^k`.
#[inline]
pub fn shifted_right(i: usize, k: usize) -> (r: usize)
    requires
        k < usize::BITS,
    ensures
        r == i as int / pow2(k as nat) as int,
        r <= i,
{
    proof {
        vstd::bits::lemma_usize_shr_is_div(i, k);
        lemma_pow2_pos(k as nat);
        let (a, b) = (i as int, pow2(k as nat) as int);
        assert(a / b <= a) by (nonlinear_arith)
            requires
                a >= 0,
                b >= 1,
        ;
    }
    i >> k
}

} // verus!
