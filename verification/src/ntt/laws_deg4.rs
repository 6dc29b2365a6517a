//! What the collapsed table promises: applying it is the low-degree extension of the
//! input bits, and the first lanes are the input bits themselves.
use vstd::arithmetic::power2::{
    lemma2_to64, lemma_pow2_pos, lemma_pow2_strictly_increases, lemma_pow2_unfold, pow2,
};
use vstd::prelude::*;
use crate::field::gf2_8::{
    lemma_add_rules8, lemma_mul_distributes8, lemma_mul_units8, F8,
};
use crate::index::index_bit;
use crate::ntt::additive_ntt_gf8::{
    lemma_transform_len, lower, normalized8, point, upper, AdditiveNttGf8,
};
use crate::ntt::inv_table_deg4::{
    extension, lemma_shifted_position, row_position, selected, shifted_position, unit8,
    unit_columns, zero_padded, InvNttTableSToV8Gf8,
};
use crate::ntt::laws_gf8::{
    lch_value, lemma_forward_evaluates8, lemma_lch_linear, lemma_normalized8,
    lemma_transforms_are_linear, lemma_transforms_undo_each_other, scaled8, sum_of,
};

verus! {

/// The coefficients of the polynomial `z ↦ f(z + d)` from those of `f`.
pub open spec fn translated(c: Seq<F8>, j: nat, d: F8) -> Seq<F8>
    decreases j,
{
    if j == 0 {
        c
    } else {
        let m = (j - 1) as nat;
        let (l, u) = (translated(lower(c), m, d), translated(upper(c), m, d));
        sum_of(l, scaled8(normalized8(m, d), u)) + u
    }
}

/// The translated coefficients belong to the translated polynomial.
proof fn lemma_translated(c: Seq<F8>, j: nat, d: F8, z: F8)
    requires
        c.len() == pow2(j),
    ensures
        translated(c, j, d).len() == pow2(j),
        lch_value(translated(c, j, d), j, z) == lch_value(c, j, z + d),
    decreases j,
{
    lemma2_to64();
    if j > 0 {
        let m = (j - 1) as nat;
        lemma_pow2_unfold(j);
        lemma_pow2_pos(m);
        lemma_translated(lower(c), m, d, z);
        lemma_translated(upper(c), m, d, z);
        let (l, u) = (translated(lower(c), m, d), translated(upper(c), m, d));
        let t = translated(c, j, d);
        let wd = normalized8(m, d);
        let wz = normalized8(m, z);
        assert(lower(t) =~= sum_of(l, scaled8(wd, u)));
        assert(upper(t) =~= u);
        lemma_lch_linear(l, u, wd, m, z);
        lemma_normalized8(m, z, d);
        let (vl, vu) = (lch_value(l, m, z), lch_value(u, m, z));
        lemma_mul_distributes8(vu, wz, wd);
        lemma_add_rules8(vl, wd * vu, wz * vu, wz * vu);
        lemma_add_rules8(wd * vu, wz * vu, vl, vl);
    }
}

/// A polynomial with no coefficients is zero.
proof fn lemma_lch_zero(c: Seq<F8>, j: nat, z: F8)
    requires
        c.len() == pow2(j),
        forall|i: int| 0 <= i < c.len() ==> #[trigger] c[i] == F8::zero(),
    ensures
        lch_value(c, j, z) == F8::zero(),
    decreases j,
{
    lemma2_to64();
    if j > 0 {
        let m = (j - 1) as nat;
        lemma_pow2_unfold(j);
        lemma_pow2_pos(m);
        lemma_lch_zero(lower(c), m, z);
        lemma_lch_zero(upper(c), m, z);
        lemma_mul_units8(normalized8(m, z));
        lemma_add_rules8(F8::zero(), F8::zero(), F8::zero(), F8::zero());
    }
}

/// Padding with zero coefficients keeps the polynomial.
proof fn lemma_lch_padded(c: Seq<F8>, j: nat, k: nat, z: F8)
    requires
        c.len() == pow2(j),
        j <= k,
    ensures
        lch_value(zero_padded(c, pow2(k)), k, z) == lch_value(c, j, z),
    decreases k,
{
    if j == k {
        assert(zero_padded(c, pow2(k)) =~= c);
    } else {
        let m = (k - 1) as nat;
        lemma_pow2_unfold(k);
        lemma_pow2_pos(m);
        if j < m {
            lemma_pow2_strictly_increases(j, m);
        }
        let p = zero_padded(c, pow2(k));
        assert(lower(p) =~= zero_padded(c, pow2(m)));
        lemma_lch_padded(c, j, m, z);
        lemma_lch_zero(upper(p), m, z);
        lemma_mul_units8(normalized8(m, z));
        lemma_add_rules8(lch_value(c, j, z), F8::zero(), F8::zero(), F8::zero());
    }
}

/// The two domains are `{0, 1, …}` of the sizes of the table.
pub open spec fn nested_domains(ntt_s: AdditiveNttGf8, ntt_v8: AdditiveNttGf8) -> bool {
    &&& 3 <= ntt_s.log_size() <= ntt_v8.log_size() <= 8
    &&& ntt_s.log_size() <= 7
    &&& ntt_s.has_offset(F8::zero())
    &&& ntt_v8.has_offset(F8::zero())
}

/// The extension at a position is the value of the interpolated polynomial there.
proof fn lemma_extension_value(ntt_s: AdditiveNttGf8, ntt_v8: AdditiveNttGf8, a: Seq<F8>, i: int)
    requires
        nested_domains(ntt_s, ntt_v8),
        a.len() == pow2(ntt_s.log_size()),
        0 <= i < pow2(ntt_v8.log_size()),
    ensures
        extension(ntt_s, ntt_v8, a).len() == pow2(ntt_v8.log_size()),
        extension(ntt_s, ntt_v8, a)[i] == lch_value(
            ntt_s.inverse_spec(a),
            ntt_s.log_size(),
            point(i),
        ),
{
    let c = ntt_s.inverse_spec(a);
    lemma_transform_len(a, ntt_s.table(), 1);
    let p = zero_padded(c, pow2(ntt_v8.log_size()));
    lemma_transform_len(p, ntt_v8.table(), 1);
    lemma_forward_evaluates8(ntt_v8, F8::zero(), p, i);
    lemma_add_rules8(point(i), point(i), point(i), point(i));
    lemma_lch_padded(c, ntt_s.log_size(), ntt_v8.log_size(), point(i));
}

/// The points of positions add as the positions do under XOR.
proof fn lemma_point_xor(i: int, s: int)
    requires
        0 <= i < 256,
        0 <= s < 256,
    ensures
        point(i) + point(s) == point(shifted_position(i, s)),
{
    reveal(F8::spec_add);
    lemma2_to64();
    lemma_shifted_position(i, s, 8);
    assert((i as u8) ^ (s as u8) == (i as usize) ^ (s as usize));
}

/// The translated coefficients have the values of the given ones at the shifted
/// positions.
proof fn lemma_moved_value(ntt: AdditiveNttGf8, c: Seq<F8>, d: int, q: int)
    requires
        ntt.log_size() <= 8,
        ntt.has_offset(F8::zero()),
        c.len() == pow2(ntt.log_size()),
        0 <= d < c.len(),
        0 <= q < c.len(),
    ensures
        0 <= shifted_position(q, d) < c.len(),
        ntt.forward_spec(translated(c, ntt.log_size(), point(d)))[q] == ntt.forward_spec(
            c,
        )[shifted_position(q, d)],
{
    let k = ntt.log_size();
    lemma2_to64();
    if k < 8 {
        lemma_pow2_strictly_increases(k, 8);
    }
    let moved = translated(c, k, point(d));
    lemma_translated(c, k, point(d), point(q));
    lemma_forward_evaluates8(ntt, F8::zero(), moved, q);
    lemma_add_rules8(point(q), point(q), point(q), point(q));
    lemma_point_xor(q, d);
    lemma_shifted_position(q, d, k);
    let p = shifted_position(q, d);
    lemma_forward_evaluates8(ntt, F8::zero(), c, p);
    lemma_add_rules8(point(p), point(p), point(p), point(p));
}

/// The extension of the unit vector at `8b + t` is that of the one at `t`, with its
/// positions shifted by `8b`.
#[verifier::rlimit(40)]
pub proof fn lemma_unit_shift(
    ntt_s: AdditiveNttGf8,
    ntt_v8: AdditiveNttGf8,
    b: int,
    t: int,
    i: int,
)
    requires
        nested_domains(ntt_s, ntt_v8),
        0 <= t < 8,
        0 <= b,
        8 * b < pow2(ntt_s.log_size()),
        0 <= i < pow2(ntt_v8.log_size()),
    ensures
        0 <= shifted_position(i, 8 * b) < pow2(ntt_v8.log_size()),
        8 * b + t < pow2(ntt_s.log_size()),
        extension(ntt_s, ntt_v8, unit8(pow2(ntt_s.log_size()), 8 * b + t))[i] == extension(
            ntt_s,
            ntt_v8,
            unit8(pow2(ntt_s.log_size()), t),
        )[shifted_position(i, 8 * b)],
{
    lemma2_to64();
    let (k, l) = (ntt_s.log_size(), ntt_v8.log_size());
    let n = pow2(k);
    if k < l {
        lemma_pow2_strictly_increases(k, l);
    }
    if l < 8 {
        lemma_pow2_strictly_increases(l, 8);
    }
    if k < 7 {
        lemma_pow2_strictly_increases(k, 7);
    }
    vstd::arithmetic::power2::lemma_pow2_adds(3, (k - 3) as nat);
    let d = 8 * b;
    let e = unit8(n, t);
    let c = ntt_s.inverse_spec(e);
    let moved = translated(c, k, point(d));
    lemma_transform_len(e, ntt_s.table(), 1);
    lemma_translated(c, k, point(d), point(i));
    lemma_transform_len(moved, ntt_s.table(), 1);
    lemma_transforms_undo_each_other(ntt_s, e);
    let target = unit8(n, d + t);
    assert(ntt_s.forward_spec(moved) =~= target) by {
        assert forall|q: int| 0 <= q < n implies ntt_s.forward_spec(moved)[q] == target[q] by {
            lemma_moved_value(ntt_s, c, d, q);
            lemma_shifted_position(q, d, k);
            lemma_shifted_position(t, d, k);
            lemma_shifted_position(shifted_position(q, d), d, k);
        }
    }
    lemma_transforms_undo_each_other(ntt_s, moved);
    assert(ntt_s.inverse_spec(target) == moved);
    lemma_extension_value(ntt_s, ntt_v8, target, i);
    lemma_point_xor(i, d);
    lemma_shifted_position(i, d, l);
    lemma_extension_value(ntt_s, ntt_v8, e, shifted_position(i, d));
}

/// The extension is linear in its input.
proof fn lemma_extension_linear(
    ntt_s: AdditiveNttGf8,
    ntt_v8: AdditiveNttGf8,
    a: Seq<F8>,
    e: Seq<F8>,
    s: F8,
    i: int,
)
    requires
        nested_domains(ntt_s, ntt_v8),
        a.len() == pow2(ntt_s.log_size()),
        e.len() == pow2(ntt_s.log_size()),
        0 <= i < pow2(ntt_v8.log_size()),
    ensures
        extension(ntt_s, ntt_v8, sum_of(a, scaled8(s, e)))[i] == extension(ntt_s, ntt_v8, a)[i] + s
            * extension(ntt_s, ntt_v8, e)[i],
{
    let v = sum_of(a, scaled8(s, e));
    lemma_extension_value(ntt_s, ntt_v8, v, i);
    lemma_extension_value(ntt_s, ntt_v8, a, i);
    lemma_extension_value(ntt_s, ntt_v8, e, i);
    lemma_transforms_are_linear(ntt_s, a, scaled8(s, e), s);
    lemma_transforms_are_linear(ntt_s, e, e, s);
    lemma_transform_len(a, ntt_s.table(), 1);
    lemma_transform_len(e, ntt_s.table(), 1);
    lemma_lch_linear(
        ntt_s.inverse_spec(a),
        ntt_s.inverse_spec(e),
        s,
        ntt_s.log_size(),
        point(i),
    );
}

/// The bits of a row of bytes, least significant first, as field elements: the first
/// `n` of them, and zeros behind.
pub open spec fn leading_bits(bytes: Seq<u8>, n: int) -> Seq<F8> {
    Seq::new(
        8 * bytes.len(),
        |s: int|
            if s < n && index_bit(bytes[s / 8] as nat, (s % 8) as nat) {
                F8::one()
            } else {
                F8::zero()
            },
    )
}

/// The bits of a row of bytes, least significant first, as field elements.
pub open spec fn input_bits(bytes: Seq<u8>) -> Seq<F8> {
    leading_bits(bytes, 8 * bytes.len() as int)
}

/// The bits below `t` of byte `b` add the selected columns at the shifted position.
proof fn lemma_byte_extension(
    ntt_s: AdditiveNttGf8,
    ntt_v8: AdditiveNttGf8,
    bytes: Seq<u8>,
    b: int,
    t: nat,
    i: int,
)
    requires
        nested_domains(ntt_s, ntt_v8),
        8 * bytes.len() == pow2(ntt_s.log_size()),
        0 <= b < bytes.len(),
        t <= 8,
        0 <= i < pow2(ntt_v8.log_size()),
    ensures
        extension(ntt_s, ntt_v8, leading_bits(bytes, 8 * b + t))[i] == extension(
            ntt_s,
            ntt_v8,
            leading_bits(bytes, 8 * b),
        )[i] + selected(
            unit_columns(ntt_s, ntt_v8),
            bytes[b] as nat,
            t,
            shifted_position(i, 8 * b),
        ),
    decreases t,
{
    let start = leading_bits(bytes, 8 * b);
    let v0 = extension(ntt_s, ntt_v8, start)[i];
    if t == 0 {
        lemma_add_rules8(v0, v0, v0, v0);
    } else {
        let m = (t - 1) as nat;
        lemma_byte_extension(ntt_s, ntt_v8, bytes, b, m, i);
        let p = 8 * b + m;
        let before = leading_bits(bytes, p);
        let e = unit8(pow2(ntt_s.log_size()), p);
        let set = index_bit(bytes[b] as nat, m);
        let s = if set {
            F8::one()
        } else {
            F8::zero()
        };
        assert(leading_bits(bytes, 8 * b + t) =~= sum_of(before, scaled8(s, e))) by {
            assert forall|q: int| 0 <= q < 8 * bytes.len() implies leading_bits(
                bytes,
                8 * b + t,
            )[q] == sum_of(before, scaled8(s, e))[q] by {
                lemma_mul_units8(s);
                lemma_add_rules8(s, s, s, s);
                lemma_add_rules8(before[q], s, s, s);
                if q == p {
                    assert(p / 8 == b && p % 8 == m);
                }
            }
        }
        lemma_extension_linear(ntt_s, ntt_v8, before, e, s, i);
        lemma_unit_shift(ntt_s, ntt_v8, b, m as int, i);
        let x = extension(ntt_s, ntt_v8, e)[i];
        lemma_mul_units8(x);
        let sel = selected(
            unit_columns(ntt_s, ntt_v8),
            bytes[b] as nat,
            m,
            shifted_position(i, 8 * b),
        );
        lemma_add_rules8(v0, sel, x, x);
        lemma_add_rules8(v0 + sel, x, x, x);
    }
}

/// Applying the rows of the first `b` bytes extends their bits.
proof fn lemma_applied_prefix(
    table: InvNttTableSToV8Gf8,
    ntt_s: AdditiveNttGf8,
    ntt_v8: AdditiveNttGf8,
    bytes: Seq<u8>,
    b: nat,
    i: int,
)
    requires
        table.wf(),
        table.is_table_of(ntt_s, ntt_v8),
        nested_domains(ntt_s, ntt_v8),
        bytes.len() == table.n_chunks,
        b <= bytes.len(),
        0 <= i < table.ell_out,
    ensures
        table.applied(bytes, b, i) == extension(ntt_s, ntt_v8, leading_bits(bytes, 8 * b as int))[i],
    decreases b,
{
    if b == 0 {
        let z = leading_bits(bytes, 0);
        assert(z =~= sum_of(z, scaled8(F8::one(), z))) by {
            lemma_mul_units8(F8::zero());
            lemma_mul_units8(F8::one());
            lemma_add_rules8(F8::zero(), F8::zero(), F8::zero(), F8::zero());
        }
        lemma_extension_linear(ntt_s, ntt_v8, z, z, F8::one(), i);
        let x = extension(ntt_s, ntt_v8, z)[i];
        lemma_mul_units8(x);
        lemma_add_rules8(x, x, x, x);
    } else {
        let c = (b - 1) as nat;
        lemma_applied_prefix(table, ntt_s, ntt_v8, bytes, c, i);
        lemma_byte_extension(ntt_s, ntt_v8, bytes, c as int, 8, i);
        lemma_unit_shift(ntt_s, ntt_v8, c as int, 0, i);
        let p = shifted_position(i, 8 * c as int);
        let r = row_position(table.ell_out as int, bytes[c as int] as int, p);
        assert(table.rows()[r] == selected(
            unit_columns(ntt_s, ntt_v8),
            bytes[c as int] as nat,
            8,
            p,
        ));
    }
}

/// Applying the table is the direct extension of the input bits, through the
/// coefficients, and the first `|S|` lanes reproduce the input bits.
pub proof fn lemma_apply_is_extension(
    table: InvNttTableSToV8Gf8,
    ntt_s: AdditiveNttGf8,
    ntt_v8: AdditiveNttGf8,
    bytes: Seq<u8>,
)
    requires
        table.wf(),
        table.is_table_of(ntt_s, ntt_v8),
        nested_domains(ntt_s, ntt_v8),
        bytes.len() == table.n_chunks,
    ensures
        table.apply_spec(bytes) == extension(ntt_s, ntt_v8, input_bits(bytes)),
        forall|s: int|
            0 <= s < table.ell_in ==> #[trigger] table.apply_spec(bytes)[s] == input_bits(bytes)[s],
{
    let a = input_bits(bytes);
    lemma_pow2_pos(ntt_v8.log_size());
    lemma_extension_value(ntt_s, ntt_v8, a, 0);
    assert forall|i: int| 0 <= i < table.ell_out implies table.apply_spec(bytes)[i] == extension(
        ntt_s,
        ntt_v8,
        a,
    )[i] by {
        lemma_applied_prefix(table, ntt_s, ntt_v8, bytes, bytes.len(), i);
    }
    assert(table.apply_spec(bytes) =~= extension(ntt_s, ntt_v8, a));
    assert forall|s: int| 0 <= s < table.ell_in implies #[trigger] table.apply_spec(bytes)[s]
        == a[s] by {
        if table.k_in < table.k_out {
            lemma_pow2_strictly_increases(table.k_in as nat, table.k_out as nat);
        }
        let c = ntt_s.inverse_spec(a);
        lemma_extension_value(ntt_s, ntt_v8, a, s);
        lemma_transform_len(a, ntt_s.table(), 1);
        lemma_forward_evaluates8(ntt_s, F8::zero(), c, s);
        lemma_add_rules8(point(s), point(s), point(s), point(s));
        lemma_transforms_undo_each_other(ntt_s, a);
    }
}

} // verus!
