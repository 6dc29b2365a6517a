//! What the forward transform computes: the values, on an F_2-affine subspace,
//! of the polynomial whose coefficients in the novel polynomial basis are given.
use vstd::arithmetic::div_mod::{lemma_div_denominator, lemma_fundamental_div_mod_converse};
use vstd::arithmetic::power2::{
    lemma2_to64, lemma_pow2_adds, lemma_pow2_pos, lemma_pow2_strictly_increases,
    lemma_pow2_unfold, pow2,
};
use vstd::prelude::*;
use crate::algebra::{
    lemma_sum_add, lemma_sum_ext, lemma_sum_scale, lemma_sum_split, sum,
};
use crate::field::gf2_128::{
    lemma_add_rules, lemma_add_self, lemma_add_zero, lemma_mul_associates, lemma_mul_commutes,
    lemma_mul_distributes, lemma_mul_inverse, lemma_mul_units, lemma_no_zero_divisors,
    lemma_square_of_sum, F128,
};
use crate::index::{index_bit, lemma_high_bit, log2, power_of_two};
use crate::ntt::additive_ntt_f128::{
    evals_of, lemma_layer_shape, normalized_poly, span_element, span_partial, standard_basis,
    subspace_poly, AdditiveNttF128,
};
use crate::ntt::laws_f128::lemma_layers_compose;
use crate::ntt::layers::{lemma_block_inside, lemma_block_of, lemma_in_block};

verus! {

/// The subspace polynomials are additive and vanish at zero.
pub proof fn lemma_subspace_poly_additive(basis: Seq<F128>, i: nat, a: F128, b: F128)
    ensures
        subspace_poly(basis, i, a + b) == subspace_poly(basis, i, a) + subspace_poly(basis, i, b),
        subspace_poly(basis, i, F128::zero()) == F128::zero(),
    decreases i,
{
    if i > 0 {
        let j = (i - 1) as nat;
        lemma_subspace_poly_additive(basis, j, a, b);
        let c = subspace_poly(basis, j, basis[j as int]);
        let (x, y) = (subspace_poly(basis, j, a), subspace_poly(basis, j, b));
        lemma_mul_distributes(x + y, x + y, c);
        lemma_square_of_sum(x, y);
        lemma_mul_distributes(c, x, y);
        lemma_mul_distributes(x, x, c);
        lemma_mul_distributes(y, y, c);
        lemma_add_rules(x * x, y * y, x * c, y * c);
        lemma_mul_units(F128::zero() + c);
    }
}

/// `W_i` vanishes on `β_j` for `j < i`.
pub proof fn lemma_subspace_poly_vanishes(basis: Seq<F128>, i: nat, j: nat)
    requires
        j < i,
    ensures
        subspace_poly(basis, i, basis[j as int]) == F128::zero(),
    decreases i,
{
    let k = (i - 1) as nat;
    let w = subspace_poly(basis, k, basis[j as int]);
    let c = subspace_poly(basis, k, basis[k as int]);
    if j == k {
        lemma_add_self(w);
        lemma_mul_units(w);
    } else {
        lemma_subspace_poly_vanishes(basis, k, j);
        lemma_mul_units(w + c);
    }
}

pub proof fn lemma_normalized_poly_additive(basis: Seq<F128>, i: nat, a: F128, b: F128)
    ensures
        normalized_poly(basis, i, a + b) == normalized_poly(basis, i, a) + normalized_poly(
            basis,
            i,
            b,
        ),
        normalized_poly(basis, i, F128::zero()) == F128::zero(),
{
    lemma_subspace_poly_additive(basis, i, a, b);
    let c = subspace_poly(basis, i, basis[i as int]).inverse();
    lemma_mul_distributes(c, subspace_poly(basis, i, a), subspace_poly(basis, i, b));
    lemma_mul_units(c);
}

/// The rows of the table can be normalized: no `W_i(β_i)` is zero.
pub open spec fn independent(basis: Seq<F128>) -> bool {
    forall|i: nat|
        i < basis.len() ==> #[trigger] subspace_poly(basis, i, basis[i as int]) != F128::zero()
}

/// The first element of each row of the table is one, by normalization.
pub proof fn lemma_row_starts_with_one(basis: Seq<F128>, i: nat)
    requires
        independent(basis),
        i < basis.len(),
    ensures
        evals_of(basis)[i as int][0] == F128::one(),
        normalized_poly(basis, i, basis[i as int]) == F128::one(),
{
    let w = subspace_poly(basis, i, basis[i as int]);
    assert(w != F128::zero());
    lemma_mul_inverse(w);
}

/// A zero of `W_i` is an element of the span of `β_0, …, β_{i-1}`.
pub proof fn lemma_subspace_poly_root(basis: Seq<F128>, i: nat, z: F128) -> (idx: nat)
    requires
        subspace_poly(basis, i, z) == F128::zero(),
    ensures
        idx < pow2(i),
        z == span_partial(basis, idx, i),
    decreases i,
{
    lemma2_to64();
    if i == 0 {
        0
    } else {
        let j = (i - 1) as nat;
        lemma_pow2_unfold(i);
        lemma_pow2_pos(j);
        let w = subspace_poly(basis, j, z);
        let b = basis[j as int];
        let c = subspace_poly(basis, j, b);
        lemma_no_zero_divisors(w, w + c);
        if w == F128::zero() {
            let idx = lemma_subspace_poly_root(basis, j, z);
            lemma_high_bit(idx, j, j);
            idx
        } else {
            lemma_subspace_poly_additive(basis, j, z, b);
            let idx = lemma_subspace_poly_root(basis, j, z + b);
            lemma_high_bit(idx, j, j);
            lemma_span_partial_low_bits(basis, idx, j, j);
            lemma_add_rules(z, b, b, b);
            idx + pow2(j)
        }
    }
}

/// Only the bits below `n` of an index enter into `span_partial(.., n)`.
proof fn lemma_span_partial_low_bits(basis: Seq<F128>, idx: nat, k: nat, n: nat)
    requires
        idx < pow2(k),
        n <= k,
    ensures
        span_partial(basis, idx + pow2(k), n) == span_partial(basis, idx, n),
    decreases n,
{
    if n > 0 {
        lemma_span_partial_low_bits(basis, idx, k, (n - 1) as nat);
        lemma_high_bit(idx, k, (n - 1) as nat);
    }
}

/// The elements of the span of `1, x, …` are the integers in their natural encoding.
pub proof fn lemma_standard_span(dim: nat, idx: nat, n: nat)
    requires
        n <= dim <= 64,
        idx < pow2(n),
    ensures
        span_partial(standard_basis(dim), idx, n) == (F128 { lo: idx as u64, hi: 0 }),
    decreases n,
{
    lemma2_to64();
    if n > 0 {
        let m = (n - 1) as nat;
        lemma_pow2_unfold(n);
        lemma_pow2_pos(m);
        let top = pow2(m);
        lemma_pow2_in_64(m);
        if idx >= top {
            let low = (idx - top) as nat;
            lemma_high_bit(low, m, m);
            lemma_standard_span(dim, low, m);
            lemma_span_partial_low_bits(standard_basis(dim), low, m, m);
            reveal(F128::spec_add);
            vstd::bits::lemma_u64_shl_is_mul(1, m as u64);
            let (l, t) = (low as u64, 1u64 << (m as u64));
            lemma_disjoint_xor(l, t, m as u64);
        } else {
            lemma_high_bit(idx, m, m);
            lemma_standard_span(dim, idx, m);
        }
    }
}

proof fn lemma_pow2_in_64(m: nat)
    requires
        m < 64,
    ensures
        pow2(m) <= 0x8000_0000_0000_0000,
{
    lemma2_to64();
    vstd::arithmetic::power2::lemma2_to64_rest();
    if m < 63 {
        lemma_pow2_strictly_increases(m, 63);
    }
}

proof fn lemma_disjoint_xor(l: u64, t: u64, m: u64)
    by (bit_vector)
    requires
        m < 64,
        t == 1u64 << m,
        l < t,
    ensures
        l ^ t == l + t,
        0u64 ^ 0u64 == 0u64,
{
}

/// The standard basis is independent, so its table is normalized.
pub proof fn lemma_standard_basis_independent(dim: nat)
    requires
        dim <= 64,
    ensures
        independent(standard_basis(dim)),
{
    let basis = standard_basis(dim);
    assert forall|i: nat| i < basis.len() implies #[trigger] subspace_poly(
        basis,
        i,
        basis[i as int],
    ) != F128::zero() by {
        if subspace_poly(basis, i, basis[i as int]) == F128::zero() {
            let idx = lemma_subspace_poly_root(basis, i, basis[i as int]);
            lemma_standard_span(dim, idx, i);
            lemma_pow2_in_64(i);
            vstd::bits::lemma_u64_shl_is_mul(1, i as u64);
        }
    }
}

/// `X_i(z) = Π_{m < n, bit m of i set} Ŵ_{o + m}(z)`, the `i`-th novel basis
/// polynomial at `z`, on the subspace polynomials from index `o` on.
pub open spec fn novel_poly(basis: Seq<F128>, o: nat, i: nat, n: nat, z: F128) -> F128
    decreases n,
{
    if n == 0 {
        F128::one()
    } else {
        let rest = novel_poly(basis, o, i, (n - 1) as nat, z);
        if index_bit(i, (n - 1) as nat) {
            rest * normalized_poly(basis, (o + n - 1) as nat, z)
        } else {
            rest
        }
    }
}

/// The evaluation point of position `p` in a transform of `2^log_d` positions.
pub open spec fn eval_point(basis: Seq<F128>, log_d: nat, p: nat) -> F128 {
    span_element(basis.subrange(basis.len() - log_d, basis.len() as int), p)
}

proof fn lemma_novel_poly_low_bits(basis: Seq<F128>, o: nat, i: nat, k: nat, n: nat, z: F128)
    requires
        i < pow2(k),
        n <= k,
    ensures
        novel_poly(basis, o, i + pow2(k), n, z) == novel_poly(basis, o, i, n, z),
    decreases n,
{
    if n > 0 {
        lemma_novel_poly_low_bits(basis, o, i, k, (n - 1) as nat, z);
        lemma_high_bit(i, k, (n - 1) as nat);
    }
}

proof fn lemma_novel_poly_step(basis: Seq<F128>, o: nat, i: nat, n: nat, z: F128)
    requires
        i < pow2(n),
    ensures
        novel_poly(basis, o, i, n + 1, z) == novel_poly(basis, o, i, n, z),
        novel_poly(basis, o, i + pow2(n), n + 1, z) == novel_poly(basis, o, i, n, z)
            * normalized_poly(basis, o + n, z),
{
    lemma_high_bit(i, n, n);
    lemma_novel_poly_low_bits(basis, o, i, n, n, z);
}

proof fn lemma_span_partial_step(basis: Seq<F128>, idx: nat, n: nat)
    ensures
        span_partial(basis, idx, 0) == F128::zero(),
        span_partial(basis, idx, n + 1) == (if index_bit(idx, n) {
            span_partial(basis, idx, n) + basis[n as int]
        } else {
            span_partial(basis, idx, n)
        }),
{
}

/// `Ŵ_{o+m}` on a partial sum of the evaluation point.
proof fn lemma_normalized_on_span(
    basis: Seq<F128>,
    o: nat,
    m: nat,
    p: nat,
    n: nat,
)
    requires
        independent(basis),
        o + m < basis.len(),
        o + n <= basis.len(),
    ensures
        ({
            let tail = basis.subrange(o as int, basis.len() as int);
            let row = evals_of(basis)[(o + m) as int];
            let high = row.subrange(1, row.len() as int);
            let w = normalized_poly(basis, o + m, span_partial(tail, p, n));
            if n <= m {
                w == F128::zero()
            } else {
                w == span_partial(high, p / pow2(m + 1), (n - m - 1) as nat) + (if index_bit(p, m) {
                    F128::one()
                } else {
                    F128::zero()
                })
            }
        }),
    decreases n,
{
    let tail = basis.subrange(o as int, basis.len() as int);
    let row = evals_of(basis)[(o + m) as int];
    let high = row.subrange(1, row.len() as int);
    lemma_normalized_poly_additive(basis, o + m, F128::zero(), F128::zero());
    lemma_add_zero(F128::zero());
    if n > 0 {
        let k = (n - 1) as nat;
        lemma_normalized_on_span(basis, o, m, p, k);
        let prev = span_partial(tail, p, k);
        let b = basis[(o + k) as int];
        assert(tail[k as int] == b);
        lemma_normalized_poly_additive(basis, o + m, prev, b);
        let wp = normalized_poly(basis, o + m, prev);
        let wb = normalized_poly(basis, o + m, b);
        let w = normalized_poly(basis, o + m, span_partial(tail, p, n));
        assert(w == if index_bit(p, k) { wp + wb } else { wp });
        if k < m {
            lemma_subspace_poly_vanishes(basis, o + m, o + k);
            lemma_mul_units(subspace_poly(basis, o + m, basis[(o + m) as int]).inverse());
            assert(wb == F128::zero());
            assert(w == F128::zero());
        } else if k == m {
            lemma_row_starts_with_one(basis, o + m);
            lemma_span_partial_step(high, p / pow2(m + 1), 0);
            lemma_add_zero(F128::one());
            assert(wb == F128::one() && wp == F128::zero());
        } else {
            let j = (k - m - 1) as nat;
            assert(high[j as int] == normalized_poly(basis, o + m, b));
            let one = if index_bit(p, m) {
                F128::one()
            } else {
                F128::zero()
            };
            let q = p / pow2(m + 1);
            lemma_shifted_bit(p, m + 1, j);
            assert(m + 1 + j == k);
            assert(index_bit(q, j) == index_bit(p, k));
            let s = span_partial(high, q, j);
            assert(wp == s + one);
            lemma_span_partial_step(high, q, j);
            lemma_add_rules(s, one, high[j as int], high[j as int]);
            lemma_add_rules(s, high[j as int], one, one);
            lemma_add_rules(one, high[j as int], one, one);
        }
    }
}

proof fn lemma_shifted_bit(p: nat, a: nat, j: nat)
    ensures
        index_bit(p / pow2(a), j) == index_bit(p, a + j),
{
    lemma_pow2_pos(a);
    lemma_pow2_pos(j);
    lemma_pow2_adds(a, j);
    lemma_div_denominator(p as int, pow2(a) as int, pow2(j) as int);
}

/// Whether a transform's table is the one of an independent basis.
pub open spec fn table_of(ntt: &AdditiveNttF128, basis: Seq<F128>) -> bool {
    &&& basis.len() >= 1
    &&& ntt.table() == evals_of(basis)
    &&& independent(basis)
}

proof fn lemma_twiddle_is_normalized(
    ntt: &AdditiveNttF128,
    basis: Seq<F128>,
    log_d: nat,
    l: nat,
    p: nat,
)
    requires
        table_of(ntt, basis),
        l < log_d <= basis.len(),
        p < pow2(log_d),
    ensures
        ({
            let m = (log_d - l - 1) as nat;
            let j = (basis.len() - l - 1) as nat;
            normalized_poly(basis, j, eval_point(basis, log_d, p)) == ntt.twiddle_at(
                l,
                p / pow2((log_d - l) as nat),
            ) + (if index_bit(p, m) {
                F128::one()
            } else {
                F128::zero()
            })
        }),
{
    let o = (basis.len() - log_d) as nat;
    let m = (log_d - l - 1) as nat;
    lemma_normalized_on_span(basis, o, m, p, log_d);
}

/// The layers from `l` on evaluate, block by block, the polynomial whose novel
/// coefficients are the block's entries.
proof fn lemma_layers_evaluate(
    ntt: &AdditiveNttF128,
    basis: Seq<F128>,
    s: Seq<F128>,
    log_d: nat,
    l: nat,
    p: nat,
)
    requires
        table_of(ntt, basis),
        l <= log_d <= basis.len(),
        s.len() == pow2(log_d),
        p < pow2(log_d),
    ensures
        ({
            let o = (basis.len() - log_d) as nat;
            let n = (log_d - l) as nat;
            let base = (p / pow2(n)) * pow2(n);
            ntt.forward_layers(s, log_d, 1, l, log_d)[p as int] == sum(
                pow2(n),
                |i: int|
                    s[base + i] * novel_poly(
                        basis,
                        o,
                        i as nat,
                        n,
                        eval_point(basis, log_d, p),
                    ),
            )
        }),
    decreases log_d - l,
{
    let o = (basis.len() - log_d) as nat;
    let n = (log_d - l) as nat;
    let z = eval_point(basis, log_d, p);
    let base = (p / pow2(n)) * pow2(n);
    let term = |i: int| s[base + i] * novel_poly(basis, o, i as nat, n, z);
    lemma2_to64();
    lemma_pow2_pos(n);
    if l == log_d {
        assert(p as int / 1 == p);
        assert(base == p) by (nonlinear_arith)
            requires
                base == (p / pow2(n)) * pow2(n),
                pow2(n) == 1,
                p / pow2(n) == p,
        ;
        assert(sum(1, term) == sum(0, term) + term(0));
        lemma_add_zero(term(0));
        lemma_mul_units(s[p as int]);
    } else {
        let m = (n - 1) as nat;
        let half = pow2(m);
        lemma_pow2_unfold(n);
        lemma_pow2_pos(m);
        lemma_layer_shape(log_d, 1, l);
        let s2 = ntt.layer(s, log_d, 1, l);
        lemma_layers_evaluate(ntt, basis, s2, log_d, l + 1, p);
        // forward_layers(s, l, log_d) == forward_layers(layer_l(s), l + 1, log_d)
        assert(ntt.forward_layers(s, log_d, 1, l, l + 1) == s2) by {
            assert(ntt.forward_layers(s, log_d, 1, l, l) == s);
        }
        lemma_layers_compose(ntt, s, log_d, 1, l, l + 1, log_d);
        let b = p / pow2(n);
        let t = ntt.twiddle_at(l, b);
        let base2 = (p / half) * half;
        lemma_block_of(p as int, pow2(n) as int);
        lemma_block_of(p as int, half as int);
        lemma_block_inside(p as int, pow2(n) as int, s.len() as int);
        assert((b + 1) * pow2(n) == base + pow2(n)) by (nonlinear_arith)
            requires
                base == b * pow2(n),
        ;
        lemma_twiddle_is_normalized(ntt, basis, log_d, l, p);
        let w = normalized_poly(basis, (o + m) as nat, z);
        let upper = p as int % (pow2(n) as int) >= half;
        // which half of its block p lies in is bit m of p
        assert(p as int / (half as int) == 2 * b + (if upper { 1int } else { 0int })) by {
            assert((2 * b) * half == b * pow2(n) && (2 * b + 1) * half == b * pow2(n) + half && (2
                * b + 2) * half == b * pow2(n) + pow2(n)) by (nonlinear_arith)
                requires
                    pow2(n) == 2 * half,
            ;
            if upper {
                lemma_in_block(p as int, (2 * b + 1) as int, half as int);
            } else {
                lemma_in_block(p as int, (2 * b) as int, half as int);
            }
        }
        assert(index_bit(p, m) == upper);
        let low = |i: int| s[base + i] * novel_poly(basis, o, i as nat, m, z);
        let high = |i: int| s[base + half + i] * novel_poly(basis, o, i as nat, m, z);
        let got = |i: int| s2[base2 + i] * novel_poly(basis, o, i as nat, m, z);
        // the upper half of the sum
        let shifted = |i: int| term(half + i);
        lemma_sum_split(half, half, term);
        assert forall|i: int| 0 <= i < half implies #[trigger] term(i) == low(i) by {
            lemma_novel_poly_step(basis, o, i as nat, m, z);
        }
        lemma_sum_ext(half, term, low);
        assert forall|i: int| 0 <= i < half implies #[trigger] shifted(i) == high(i) * w by {
            lemma_novel_poly_step(basis, o, i as nat, m, z);
            lemma_mul_associates(
                s[base + half + i],
                novel_poly(basis, o, i as nat, m, z),
                w,
            );
            assert(base + (half + i) == base + half + i);
            assert((half + i) as nat == i as nat + pow2(m));
        }
        lemma_sum_ext(half, shifted, |i: int| high(i) * w);
        lemma_sum_scale(half, w, high);
        // what the layer makes of the block
        let one = if upper {
            F128::one()
        } else {
            F128::zero()
        };
        assert(w == t + one);
        assert forall|i: int| 0 <= i < half implies #[trigger] got(i) == low(i) + high(i) * w by {
            let x = novel_poly(basis, o, i as nat, m, z);
            let (u, v) = (s[base + i], s[base + half + i]);
            let q = base2 + i;
            assert(ntt.layer_twiddles(l)(b as int) == t);
            lemma_in_block(base + i, b as int, 2 * half as int);
            lemma_in_block(base + half + i, b as int, 2 * half as int);
            if upper {
                assert(base2 == base + half) by (nonlinear_arith)
                    requires
                        base2 == (2 * b + 1) * half,
                        base == b * (2 * half),
                ;
                assert(s2[q] == v + (u + v * t));
                lemma_mul_distributes(v, t, F128::one());
                lemma_mul_units(v);
                lemma_add_rules(v, u, v * t, v * t);
                lemma_add_rules(u, v, v * t, v * t);
                lemma_add_rules(v * t, v, v, v);
                assert(s2[q] == u + v * w);
            } else {
                assert(base2 == base) by (nonlinear_arith)
                    requires
                        base2 == (2 * b) * half,
                        base == b * (2 * half),
                ;
                lemma_add_zero(t);
                assert(s2[q] == u + v * w);
            }
            lemma_mul_distributes(x, u, v * w);
            lemma_mul_associates(v, w, x);
            lemma_mul_commutes(w, x);
            lemma_mul_associates(v, x, w);
        }
        lemma_sum_ext(half, got, |i: int| low(i) + high(i) * w);
        let hw = |i: int| high(i) * w;
        lemma_sum_add(half, low, hw);
        lemma_sum_ext(half, |i: int| low(i) + high(i) * w, |i: int| low(i) + hw(i));
    }
}

/// The forward transform maps coefficients in the novel polynomial basis to
/// evaluations: entry `p` of the result is `Σ_i s[i] · X_i(ω_p)`, where `ω_p` is
/// the `p`-th element of the span of the last `log_d` basis vectors.
pub proof fn lemma_forward_evaluates(
    ntt: &AdditiveNttF128,
    basis: Seq<F128>,
    s: Seq<F128>,
    p: nat,
)
    requires
        table_of(ntt, basis),
        power_of_two(s.len()),
        log2(s.len()) <= basis.len(),
        p < s.len(),
    ensures
        ({
            let log_d = log2(s.len());
            let o = (basis.len() - log_d) as nat;
            ntt.forward(s)[p as int] == sum(
                s.len(),
                |i: int|
                    s[i] * novel_poly(basis, o, i as nat, log_d, eval_point(basis, log_d, p)),
            )
        }),
{
    let log_d = log2(s.len());
    let o = (basis.len() - log_d) as nat;
    let z = eval_point(basis, log_d, p);
    assert(s.len() / 1 == s.len());
    lemma_layers_evaluate(ntt, basis, s, log_d, 0, p);
    lemma_fundamental_div_mod_converse(p as int, s.len() as int, 0, p as int);
    lemma_sum_ext(
        s.len(),
        |i: int| s[0 + i] * novel_poly(basis, o, i as nat, log_d, z),
        |i: int| s[i] * novel_poly(basis, o, i as nat, log_d, z),
    );
}

} // verus!
