//! What the GF(2^8) transforms promise: each undoes the other, both are linear, and
//! the forward one evaluates a polynomial on the points of the domain.
use vstd::arithmetic::power2::{
    lemma2_to64, lemma_pow2_adds, lemma_pow2_pos, lemma_pow2_strictly_increases,
    lemma_pow2_unfold, pow2,
};
use vstd::prelude::*;
use crate::field::gf2_8::{
    lemma_add_rules8, lemma_mul_associates8, lemma_mul_commutes8, lemma_mul_distributes8,
    lemma_mul_inverse8, lemma_mul_units8, lemma_no_zero_divisors8, F8,
};
use crate::ntt::additive_ntt_gf8::{
    butterflied, is_twiddle_table, lemma_transform_len, lemma_vanishing_additive, lower,
    normalized8, point, transformed, tree_position, twiddle8, unbutterflied, untransformed, upper,
    vanishing, AdditiveNttGf8,
};

verus! {

/// The entrywise sum of two vectors.
pub open spec fn sum_of(a: Seq<F8>, b: Seq<F8>) -> Seq<F8> {
    Seq::new(a.len(), |i: int| a[i] + b[i])
}

/// A vector times a field element.
pub open spec fn scaled8(c: F8, a: Seq<F8>) -> Seq<F8> {
    Seq::new(a.len(), |i: int| c * a[i])
}

/// The butterfly layers undo each other.
proof fn lemma_butterfly_roundtrip(v: Seq<F8>, lambda: F8)
    requires
        v.len() % 2 == 0,
    ensures
        unbutterflied(butterflied(v, lambda), lambda) == v,
        butterflied(unbutterflied(v, lambda), lambda) == v,
{
    let half = v.len() as int / 2;
    let f = butterflied(v, lambda);
    let g = unbutterflied(v, lambda);
    assert forall|i: int| 0 <= i < v.len() implies #[trigger] unbutterflied(f, lambda)[i] == v[i]
        && butterflied(g, lambda)[i] == v[i] by {
        let (u, w) = if i < half {
            (v[i], v[half + i])
        } else {
            (v[i - half], v[i])
        };
        let t = u + lambda * w;
        // forward then back: w + t + t = w, u + λw + λw = u
        lemma_add_rules8(w, t, t, t);
        lemma_add_rules8(u, lambda * w, w, w);
        // back then forward: h = w + u, u + λh + λh = u, h + u = w
        let h = w + u;
        lemma_add_rules8(u, lambda * h, w, w);
        lemma_add_rules8(w, u, u, u);
    }
    assert(unbutterflied(f, lambda) =~= v);
    assert(butterflied(g, lambda) =~= v);
}

/// On a block of `2^j` values each transform undoes the other.
pub proof fn lemma_block_roundtrip(v: Seq<F8>, tw: Seq<F8>, idx: int, j: nat)
    requires
        v.len() == pow2(j),
    ensures
        untransformed(transformed(v, tw, idx), tw, idx) == v,
        transformed(untransformed(v, tw, idx), tw, idx) == v,
    decreases j,
{
    lemma2_to64();
    if j > 0 {
        let h = (j - 1) as nat;
        lemma_pow2_unfold(j);
        lemma_pow2_pos(h);
        let lambda = tw[idx - 1];
        let b = butterflied(v, lambda);
        lemma_transform_len(lower(b), tw, 2 * idx);
        lemma_transform_len(upper(b), tw, 2 * idx + 1);
        lemma_block_roundtrip(lower(b), tw, 2 * idx, h);
        lemma_block_roundtrip(upper(b), tw, 2 * idx + 1, h);
        let f = transformed(v, tw, idx);
        assert(lower(f) =~= transformed(lower(b), tw, 2 * idx));
        assert(upper(f) =~= transformed(upper(b), tw, 2 * idx + 1));
        assert(lower(b) + upper(b) =~= b);
        lemma_butterfly_roundtrip(v, lambda);
        lemma_transform_len(lower(v), tw, 2 * idx);
        lemma_transform_len(upper(v), tw, 2 * idx + 1);
        lemma_block_roundtrip(lower(v), tw, 2 * idx, h);
        lemma_block_roundtrip(upper(v), tw, 2 * idx + 1, h);
        let m = untransformed(lower(v), tw, 2 * idx) + untransformed(upper(v), tw, 2 * idx + 1);
        lemma_butterfly_roundtrip(m, lambda);
        assert(lower(m) =~= untransformed(lower(v), tw, 2 * idx));
        assert(upper(m) =~= untransformed(upper(v), tw, 2 * idx + 1));
        assert(lower(v) + upper(v) =~= v);
    }
}

/// `inverse` after `forward` and `forward` after `inverse` give the vector back.
pub proof fn lemma_transforms_undo_each_other(ntt: AdditiveNttGf8, v: Seq<F8>)
    requires
        v.len() == pow2(ntt.log_size()),
    ensures
        ntt.inverse_spec(ntt.forward_spec(v)) == v,
        ntt.forward_spec(ntt.inverse_spec(v)) == v,
{
    lemma_block_roundtrip(v, ntt.table(), 1, ntt.log_size());
}

/// The butterfly layers are linear.
proof fn lemma_butterfly_linear(a: Seq<F8>, b: Seq<F8>, c: F8, lambda: F8)
    requires
        a.len() == b.len(),
        a.len() % 2 == 0,
    ensures
        butterflied(sum_of(a, b), lambda) == sum_of(butterflied(a, lambda), butterflied(b, lambda)),
        butterflied(scaled8(c, a), lambda) == scaled8(c, butterflied(a, lambda)),
        unbutterflied(sum_of(a, b), lambda) == sum_of(
            unbutterflied(a, lambda),
            unbutterflied(b, lambda),
        ),
        unbutterflied(scaled8(c, a), lambda) == scaled8(c, unbutterflied(a, lambda)),
{
    let half = a.len() as int / 2;
    assert forall|i: int| 0 <= i < a.len() implies {
        &&& #[trigger] butterflied(sum_of(a, b), lambda)[i] == butterflied(a, lambda)[i]
            + butterflied(b, lambda)[i]
        &&& butterflied(scaled8(c, a), lambda)[i] == c * butterflied(a, lambda)[i]
        &&& unbutterflied(sum_of(a, b), lambda)[i] == unbutterflied(a, lambda)[i] + unbutterflied(
            b,
            lambda,
        )[i]
        &&& unbutterflied(scaled8(c, a), lambda)[i] == c * unbutterflied(a, lambda)[i]
    } by {
        let (i0, i1) = if i < half {
            (i, half + i)
        } else {
            (i - half, i)
        };
        let (u, w, x, y) = (a[i0], a[i1], b[i0], b[i1]);
        lemma_mul_distributes8(lambda, w, y);
        lemma_add_rules8(u, x, lambda * w, lambda * y);
        lemma_add_rules8(w, y, u + lambda * w, x + lambda * y);
        lemma_mul_associates8(c, lambda, w);
        lemma_mul_associates8(lambda, c, w);
        lemma_mul_commutes8(c, lambda);
        lemma_mul_distributes8(c, u, lambda * w);
        lemma_mul_distributes8(c, w, u + lambda * w);
        // undone
        lemma_add_rules8(w, y, u, x);
        lemma_mul_distributes8(lambda, w + u, y + x);
        lemma_add_rules8(u, x, lambda * (w + u), lambda * (y + x));
        lemma_mul_distributes8(c, w, u);
        lemma_mul_associates8(c, lambda, w + u);
        lemma_mul_associates8(lambda, c, w + u);
        lemma_mul_distributes8(c, u, lambda * (w + u));
    }
    assert(butterflied(sum_of(a, b), lambda) =~= sum_of(
        butterflied(a, lambda),
        butterflied(b, lambda),
    ));
    assert forall|i: int| 0 <= i < a.len() implies #[trigger] butterflied(scaled8(c, a), lambda)[i]
        == c * butterflied(a, lambda)[i] by {
        let t = butterflied(sum_of(a, b), lambda)[i];
    }
    assert(butterflied(scaled8(c, a), lambda) =~= scaled8(c, butterflied(a, lambda)));
    assert forall|i: int| 0 <= i < a.len() implies #[trigger] unbutterflied(
        sum_of(a, b),
        lambda,
    )[i] == unbutterflied(a, lambda)[i] + unbutterflied(b, lambda)[i] by {
        let t = butterflied(sum_of(a, b), lambda)[i];
    }
    assert(unbutterflied(sum_of(a, b), lambda) =~= sum_of(
        unbutterflied(a, lambda),
        unbutterflied(b, lambda),
    ));
    assert forall|i: int| 0 <= i < a.len() implies #[trigger] unbutterflied(
        scaled8(c, a),
        lambda,
    )[i] == c * unbutterflied(a, lambda)[i] by {
        let t = butterflied(sum_of(a, b), lambda)[i];
    }
    assert(unbutterflied(scaled8(c, a), lambda) =~= scaled8(c, unbutterflied(a, lambda)));
}

/// The transforms of a block are linear.
pub proof fn lemma_block_linear(a: Seq<F8>, b: Seq<F8>, c: F8, tw: Seq<F8>, idx: int, j: nat)
    requires
        a.len() == pow2(j),
        b.len() == pow2(j),
    ensures
        transformed(sum_of(a, b), tw, idx) == sum_of(
            transformed(a, tw, idx),
            transformed(b, tw, idx),
        ),
        transformed(scaled8(c, a), tw, idx) == scaled8(c, transformed(a, tw, idx)),
        untransformed(sum_of(a, b), tw, idx) == sum_of(
            untransformed(a, tw, idx),
            untransformed(b, tw, idx),
        ),
        untransformed(scaled8(c, a), tw, idx) == scaled8(c, untransformed(a, tw, idx)),
    decreases j,
{
    lemma2_to64();
    lemma_transform_len(a, tw, idx);
    lemma_transform_len(b, tw, idx);
    if j > 0 {
        let h = (j - 1) as nat;
        lemma_pow2_unfold(j);
        lemma_pow2_pos(h);
        let lambda = tw[idx - 1];
        let (l, r) = (2 * idx, 2 * idx + 1);
        lemma_butterfly_linear(a, b, c, lambda);
        let (x, y) = (butterflied(a, lambda), butterflied(b, lambda));
        assert(lower(sum_of(x, y)) =~= sum_of(lower(x), lower(y)));
        assert(upper(sum_of(x, y)) =~= sum_of(upper(x), upper(y)));
        assert(lower(scaled8(c, x)) =~= scaled8(c, lower(x)));
        assert(upper(scaled8(c, x)) =~= scaled8(c, upper(x)));
        lemma_block_linear(lower(x), lower(y), c, tw, l, h);
        lemma_block_linear(upper(x), upper(y), c, tw, r, h);
        lemma_transform_len(lower(x), tw, l);
        lemma_transform_len(lower(y), tw, l);
        lemma_transform_len(upper(x), tw, r);
        lemma_transform_len(upper(y), tw, r);
        assert(transformed(sum_of(a, b), tw, idx) =~= sum_of(
            transformed(a, tw, idx),
            transformed(b, tw, idx),
        ));
        assert(transformed(scaled8(c, a), tw, idx) =~= scaled8(c, transformed(a, tw, idx)));
        assert(lower(sum_of(a, b)) =~= sum_of(lower(a), lower(b)));
        assert(upper(sum_of(a, b)) =~= sum_of(upper(a), upper(b)));
        assert(lower(scaled8(c, a)) =~= scaled8(c, lower(a)));
        assert(upper(scaled8(c, a)) =~= scaled8(c, upper(a)));
        lemma_block_linear(lower(a), lower(b), c, tw, l, h);
        lemma_block_linear(upper(a), upper(b), c, tw, r, h);
        lemma_transform_len(lower(a), tw, l);
        lemma_transform_len(lower(b), tw, l);
        lemma_transform_len(upper(a), tw, r);
        lemma_transform_len(upper(b), tw, r);
        let p = untransformed(lower(a), tw, l) + untransformed(upper(a), tw, r);
        let q = untransformed(lower(b), tw, l) + untransformed(upper(b), tw, r);
        lemma_butterfly_linear(p, q, c, lambda);
        assert(untransformed(lower(sum_of(a, b)), tw, l) + untransformed(
            upper(sum_of(a, b)),
            tw,
            r,
        ) =~= sum_of(p, q));
        assert(untransformed(lower(scaled8(c, a)), tw, l) + untransformed(
            upper(scaled8(c, a)),
            tw,
            r,
        ) =~= scaled8(c, p));
    } else {
        assert(transformed(sum_of(a, b), tw, idx) =~= sum_of(
            transformed(a, tw, idx),
            transformed(b, tw, idx),
        ));
    }
}

/// Both transforms are linear over the field.
pub proof fn lemma_transforms_are_linear(ntt: AdditiveNttGf8, a: Seq<F8>, b: Seq<F8>, c: F8)
    requires
        a.len() == pow2(ntt.log_size()),
        b.len() == pow2(ntt.log_size()),
    ensures
        ntt.forward_spec(sum_of(a, b)) == sum_of(ntt.forward_spec(a), ntt.forward_spec(b)),
        ntt.forward_spec(scaled8(c, a)) == scaled8(c, ntt.forward_spec(a)),
        ntt.inverse_spec(sum_of(a, b)) == sum_of(ntt.inverse_spec(a), ntt.inverse_spec(b)),
        ntt.inverse_spec(scaled8(c, a)) == scaled8(c, ntt.inverse_spec(a)),
{
    lemma_block_linear(a, b, c, ntt.table(), 1, ntt.log_size());
}

proof fn lemma_disjoint_sum(h: u64, l: u64, m: u64)
    by (bit_vector)
    requires
        m <= 8,
        h <= 255,
        h % (1u64 << m) == 0,
        l < (1u64 << m),
    ensures
        h ^ l == h + l,
{
}

/// A multiple of a power of two and a smaller number add without carries.
pub proof fn lemma_point_adds(h: int, l: int, m: nat)
    requires
        m <= 8,
        0 <= h,
        h % (pow2(m) as int) == 0,
        0 <= l < pow2(m),
        h + l < 256,
    ensures
        point(h) + point(l) == point(h + l),
{
    lemma2_to64();
    vstd::bits::lemma_u64_shl_is_mul(1, m as u64);
    lemma_disjoint_sum(h as u64, l as u64, m as u64);
    reveal(F8::spec_add);
    assert((h as u8) ^ (l as u8) == (h as u64) ^ (l as u64));
}

/// `W_l` vanishes on the span of `1, 2, …, 2^{l-1}`.
pub proof fn lemma_vanishing_on_span(l: nat, i: int)
    requires
        l <= 8,
        0 <= i < pow2(l),
    ensures
        vanishing(l, point(i)) == F8::zero(),
    decreases l,
{
    lemma2_to64();
    if l > 0 {
        let m = (l - 1) as nat;
        lemma_pow2_unfold(l);
        lemma_pow2_pos(m);
        let t = pow2(m) as int;
        let c = vanishing(m, point(t));
        lemma_pow2_in_byte(l);
        if i < t {
            lemma_vanishing_on_span(m, i);
            lemma_mul_units8(F8::zero() + c);
        } else {
            lemma_vanishing_on_span(m, i - t);
            vstd::arithmetic::div_mod::lemma_mod_self_0(t);
            lemma_point_adds(t, i - t, m);
            lemma_vanishing_additive(m, point(t), point(i - t));
            lemma_add_rules8(c, c, c, c);
            lemma_mul_units8(c);
        }
    }
}

proof fn lemma_pow2_in_byte(l: nat)
    requires
        l <= 8,
    ensures
        pow2(l) <= 256,
{
    lemma2_to64();
    if l < 8 {
        lemma_pow2_strictly_increases(l, 8);
    }
}

/// The zeros of `W_l` are the elements of the span.
proof fn lemma_vanishing_root(l: nat, z: F8) -> (i: int)
    requires
        l <= 8,
        vanishing(l, z) == F8::zero(),
    ensures
        0 <= i < pow2(l),
        z == point(i),
    decreases l,
{
    lemma2_to64();
    if l == 0 {
        0
    } else {
        let m = (l - 1) as nat;
        lemma_pow2_unfold(l);
        lemma_pow2_pos(m);
        lemma_pow2_in_byte(l);
        let t = pow2(m) as int;
        let w = vanishing(m, z);
        let c = vanishing(m, point(t));
        lemma_no_zero_divisors8(w, w + c);
        if w == F8::zero() {
            lemma_vanishing_root(m, z)
        } else {
            lemma_vanishing_additive(m, z, point(t));
            let i = lemma_vanishing_root(m, z + point(t));
            lemma_add_rules8(z, point(t), z, z);
            vstd::arithmetic::div_mod::lemma_mod_self_0(t);
            lemma_point_adds(t, i, m);
            lemma_add_rules8(point(i), point(t), z, z);
            i + t
        }
    }
}

/// `Ŵ_l` is additive, zero on the span of `1, …, 2^{l-1}` and one at `2^l`.
pub proof fn lemma_normalized8(l: nat, a: F8, b: F8)
    ensures
        normalized8(l, a + b) == normalized8(l, a) + normalized8(l, b),
        l < 8 ==> normalized8(l, point(pow2(l) as int)) == F8::one(),
{
    let t = point(pow2(l) as int);
    let w = vanishing(l, t);
    lemma_vanishing_additive(l, a, b);
    lemma_mul_distributes8(w.inverse(), vanishing(l, a), vanishing(l, b));
    if l < 8 {
        if w == F8::zero() {
            let i = lemma_vanishing_root(l, t);
            lemma2_to64();
            lemma_pow2_strictly_increases(l, 8);
        }
        lemma_mul_inverse8(w);
    }
}

proof fn lemma_normalized8_on_span(l: nat, i: int)
    requires
        l <= 8,
        0 <= i < pow2(l),
    ensures
        normalized8(l, point(i)) == F8::zero(),
{
    lemma_vanishing_on_span(l, i);
    lemma_mul_units8(vanishing(l, point(pow2(l) as int)).inverse());
}

/// The polynomial with the `2^j` coefficients `c` in the Lin–Chung–Han basis, at `z`.
/// The basis polynomial of index `i` is the product of the `Ŵ_m` over the set bits
/// `m` of `i`, so the second half of the coefficients belongs to `Ŵ_{j-1}` times the
/// polynomials of the first half.
pub open spec fn lch_value(c: Seq<F8>, j: nat, z: F8) -> F8
    decreases j,
{
    if j == 0 {
        c[0]
    } else {
        let m = (j - 1) as nat;
        lch_value(lower(c), m, z) + normalized8(m, z) * lch_value(upper(c), m, z)
    }
}

/// The value of a polynomial is linear in its coefficients.
pub proof fn lemma_lch_linear(a: Seq<F8>, b: Seq<F8>, s: F8, j: nat, z: F8)
    requires
        a.len() == pow2(j),
        b.len() == pow2(j),
    ensures
        lch_value(sum_of(a, scaled8(s, b)), j, z) == lch_value(a, j, z) + s * lch_value(b, j, z),
    decreases j,
{
    lemma2_to64();
    if j > 0 {
        let m = (j - 1) as nat;
        lemma_pow2_unfold(j);
        lemma_pow2_pos(m);
        let c = sum_of(a, scaled8(s, b));
        assert(lower(c) =~= sum_of(lower(a), scaled8(s, lower(b))));
        assert(upper(c) =~= sum_of(upper(a), scaled8(s, upper(b))));
        lemma_lch_linear(lower(a), lower(b), s, m, z);
        lemma_lch_linear(upper(a), upper(b), s, m, z);
        let w = normalized8(m, z);
        let (al, au) = (lch_value(lower(a), m, z), lch_value(upper(a), m, z));
        let (bl, bu) = (lch_value(lower(b), m, z), lch_value(upper(b), m, z));
        lemma_mul_distributes8(w, au, s * bu);
        lemma_mul_associates8(w, s, bu);
        lemma_mul_associates8(s, w, bu);
        lemma_mul_commutes8(w, s);
        lemma_mul_distributes8(s, bl, w * bu);
        lemma_add_rules8(al, s * bl, w * au, s * (w * bu));
    }
}

/// The transform of the block `b` of depth `d` evaluates the polynomial of its
/// coefficients on the points of the block.
proof fn lemma_block_evaluates(
    v: Seq<F8>,
    tw: Seq<F8>,
    k: nat,
    beta: F8,
    d: nat,
    b: int,
    i: int,
)
    requires
        k <= 8,
        is_twiddle_table(tw, k, beta),
        d <= k,
        0 <= b < pow2(d),
        v.len() == pow2((k - d) as nat),
        0 <= i < v.len(),
    ensures
        transformed(v, tw, pow2(d) + b)[i] == lch_value(
            v,
            (k - d) as nat,
            beta + (point(b * pow2((k - d) as nat)) + point(i)),
        ),
    decreases k - d,
{
    lemma2_to64();
    let j = (k - d) as nat;
    if j > 0 {
        let m = (j - 1) as nat;
        lemma_pow2_unfold(j);
        lemma_pow2_pos(m);
        lemma_pow2_unfold(d + 1);
        let t = pow2(m) as int;
        let idx = pow2(d) + b;
        let lambda = tw[idx - 1];
        assert(idx - 1 == tree_position(d, b));
        let base = point(b * pow2(j));
        assert(lambda == twiddle8(beta, m, b));
        let bf = butterflied(v, lambda);
        lemma_transform_len(lower(bf), tw, 2 * idx);
        lemma_transform_len(upper(bf), tw, 2 * idx + 1);
        // The blocks fit a byte.
        lemma_pow2_adds(d, j);
        lemma_pow2_in_byte(k);
        assert(b * pow2(j) + pow2(j) <= 256 && b * pow2(j) >= 0) by (nonlinear_arith)
            requires
                0 <= b < pow2(d),
                pow2(d) * pow2(j) == pow2(k),
                pow2(k) <= 256,
        ;
        assert((2 * b) * t == b * pow2(j) && (2 * b + 1) * t == b * pow2(j) + t)
            by (nonlinear_arith)
            requires
                pow2(j) == 2 * t,
        ;
        vstd::arithmetic::div_mod::lemma_mod_multiples_basic(b, pow2(j) as int);
        vstd::arithmetic::div_mod::lemma_mod_self_0(t);
        let (lo, up) = (lower(v), upper(v));
        let z = beta + (base + point(i));
        lemma_add_rules8(beta, base, point(i), point(i));
        assert(z == (beta + base) + point(i));
        if i < t {
            lemma_block_evaluates(lower(bf), tw, k, beta, d + 1, 2 * b, i);
            assert(transformed(v, tw, idx)[i] == transformed(lower(bf), tw, 2 * idx)[i]);
            // Ŵ_m(z) = λ
            lemma_normalized8(m, beta + base, point(i));
            lemma_normalized8_on_span(m, i);
            lemma_add_rules8(lambda, F8::zero(), lambda, lambda);
            assert(normalized8(m, z) == lambda);
            assert(lower(bf) =~= sum_of(lo, scaled8(lambda, up)));
            lemma_lch_linear(lo, up, lambda, m, z);
        } else {
            let r = i - t;
            lemma_block_evaluates(upper(bf), tw, k, beta, d + 1, 2 * b + 1, r);
            assert(transformed(v, tw, idx)[i] == transformed(upper(bf), tw, 2 * idx + 1)[r]);
            // the point of the block of the second half
            lemma_point_adds(b * pow2(j), t, j);
            lemma_point_adds(t, r, m);
            lemma_add_rules8(base, point(t), point(r), point(r));
            assert(beta + (point((2 * b + 1) * t) + point(r)) == z);
            // Ŵ_m(z) = λ + 1
            lemma_normalized8(m, beta + base, point(i));
            lemma_normalized8(m, point(t), point(r));
            lemma_normalized8_on_span(m, r);
            lemma_add_rules8(F8::one(), F8::zero(), lambda, lambda);
            assert(normalized8(m, z) == lambda + F8::one());
            assert(upper(bf) =~= sum_of(lo, scaled8(lambda + F8::one(), up))) by {
                assert forall|q: int| 0 <= q < t implies #[trigger] upper(bf)[q] == sum_of(
                    lo,
                    scaled8(lambda + F8::one(), up),
                )[q] by {
                    let (x, y) = (lo[q], up[q]);
                    lemma_mul_distributes8(y, lambda, F8::one());
                    lemma_mul_units8(y);
                    lemma_add_rules8(y, x + lambda * y, x, x);
                    lemma_add_rules8(x, lambda * y, y, y);
                }
            }
            lemma_lch_linear(lo, up, lambda + F8::one(), m, z);
        }
    } else {
        assert(b * pow2(0) == b) by (nonlinear_arith)
            requires
                pow2(0) == 1,
        ;
    }
}

/// The forward transform maps coefficients in the Lin–Chung–Han basis to the
/// evaluations at the points `β + 0, β + 1, …` of the domain.
pub proof fn lemma_forward_evaluates8(ntt: AdditiveNttGf8, beta: F8, c: Seq<F8>, i: int)
    requires
        ntt.log_size() <= 8,
        ntt.has_offset(beta),
        c.len() == pow2(ntt.log_size()),
        0 <= i < c.len(),
    ensures
        ntt.forward_spec(c)[i] == lch_value(c, ntt.log_size(), beta + point(i)),
{
    lemma2_to64();
    lemma_block_evaluates(c, ntt.table(), ntt.log_size(), beta, 0, 0, i);
    assert(0int * pow2(ntt.log_size()) == 0) by (nonlinear_arith);
    lemma_add_rules8(point(i), point(i), point(i), point(i));
}

} // verus!
