//! Butterfly layers of the additive NTT over GF(2^128), as maps on sequences.
//!
//! A layer with half-block length `h` cuts the sequence into blocks of length
//! `2h` and sends the pair `(u, v)` at distance `h` in block `b` to
//! `(u + v·t, v + (u + v·t))`, where `t` is the twiddle of block `b`.
use vstd::arithmetic::div_mod::{
    lemma_fundamental_div_mod, lemma_fundamental_div_mod_converse, lemma_mod_bound,
};
use vstd::prelude::*;
use crate::field::gf2_128::{
    lemma_add_rules, lemma_add_zero, lemma_mul_distributes, lemma_mul_units, F128,
};

verus! {

/// One butterfly layer.
pub open spec fn layer_map(s: Seq<F128>, h: int, tw: spec_fn(int) -> F128) -> Seq<F128> {
    Seq::new(
        s.len(),
        |p: int|
            if p % (2 * h) < h {
                s[p] + s[p + h] * tw(p / (2 * h))
            } else {
                s[p] + (s[p - h] + s[p] * tw(p / (2 * h)))
            },
    )
}

/// The layer that undoes [`layer_map`].
pub open spec fn inverse_layer_map(s: Seq<F128>, h: int, tw: spec_fn(int) -> F128) -> Seq<F128> {
    Seq::new(
        s.len(),
        |p: int|
            if p % (2 * h) < h {
                s[p] + (s[p + h] + s[p]) * tw(p / (2 * h))
            } else {
                s[p] + s[p - h]
            },
    )
}

/// The butterflies of the one block that begins at `start`.
pub open spec fn block_step(s: Seq<F128>, start: int, h: int, t: F128) -> Seq<F128> {
    Seq::new(
        s.len(),
        |p: int|
            if start <= p < start + h {
                s[p] + s[p + h] * t
            } else if start + h <= p < start + 2 * h {
                s[p] + (s[p - h] + s[p] * t)
            } else {
                s[p]
            },
    )
}

/// The inverse butterflies of the one block that begins at `start`.
pub open spec fn inverse_block_step(s: Seq<F128>, start: int, h: int, t: F128) -> Seq<F128> {
    Seq::new(
        s.len(),
        |p: int|
            if start <= p < start + h {
                s[p] + (s[p + h] + s[p]) * t
            } else if start + h <= p < start + 2 * h {
                s[p] + s[p - h]
            } else {
                s[p]
            },
    )
}

/// `a` below `n`, `b` from there on.
pub open spec fn spliced(a: Seq<F128>, b: Seq<F128>, n: int) -> Seq<F128> {
    Seq::new(b.len(), |p: int| if p < n { a[p] } else { b[p] })
}

/// The place of an index within its block.
pub proof fn lemma_in_block(p: int, b: int, size: int)
    requires
        size > 0,
        b >= 0,
        b * size <= p < (b + 1) * size,
    ensures
        p / size == b,
        p % size == p - b * size,
{
    assert((b + 1) * size == b * size + size) by (nonlinear_arith);
    lemma_fundamental_div_mod_converse(p, size, b, p - b * size);
}

/// The block that an index lies in.
pub proof fn lemma_block_of(p: int, size: int)
    requires
        size > 0,
        p >= 0,
    ensures
        p == (p / size) * size + p % size,
        0 <= p % size < size,
        p / size >= 0,
        (p / size) * size <= p < (p / size + 1) * size,
{
    lemma_fundamental_div_mod(p, size);
    lemma_mod_bound(p, size);
    assert(p / size >= 0) by (nonlinear_arith)
        requires
            p >= 0,
            size > 0,
    ;
    assert(size * (p / size) == (p / size) * size) by (nonlinear_arith);
    assert((p / size + 1) * size == (p / size) * size + size) by (nonlinear_arith);
}

/// A sequence of whole blocks: each block lies inside it.
pub proof fn lemma_block_inside(p: int, size: int, len: int)
    requires
        size > 0,
        0 <= p < len,
        len % size == 0,
    ensures
        (p / size + 1) * size <= len,
{
    lemma_block_of(p, size);
    lemma_block_of(len, size);
    let (b, n) = (p / size, len / size);
    assert(b < n) by (nonlinear_arith)
        requires
            b * size <= p,
            p < len,
            len == n * size,
            size > 0,
    ;
    assert((b + 1) * size <= n * size) by (nonlinear_arith)
        requires
            b < n,
            size > 0,
    ;
}

/// Doing block `b` after the blocks before it gives the blocks up to `b`.
pub proof fn lemma_layer_progress(s: Seq<F128>, h: int, tw: spec_fn(int) -> F128, b: int)
    requires
        h > 0,
        b >= 0,
        (b + 1) * (2 * h) <= s.len(),
    ensures
        block_step(spliced(layer_map(s, h, tw), s, b * (2 * h)), b * (2 * h), h, tw(b)) == spliced(
            layer_map(s, h, tw),
            s,
            (b + 1) * (2 * h),
        ),
        inverse_block_step(
            spliced(inverse_layer_map(s, h, tw), s, b * (2 * h)),
            b * (2 * h),
            h,
            tw(b),
        ) == spliced(inverse_layer_map(s, h, tw), s, (b + 1) * (2 * h)),
{
    let start = b * (2 * h);
    assert((b + 1) * (2 * h) == start + 2 * h) by (nonlinear_arith)
        requires
            start == b * (2 * h),
    ;
    let f = layer_map(s, h, tw);
    let g = inverse_layer_map(s, h, tw);
    let x = spliced(f, s, start);
    let y = spliced(g, s, start);
    assert forall|p: int| #![trigger s[p]] 0 <= p < s.len() implies block_step(x, start, h, tw(b))[p] == spliced(
        f,
        s,
        start + 2 * h,
    )[p] && inverse_block_step(y, start, h, tw(b))[p] == spliced(g, s, start + 2 * h)[p] by {
        if start <= p < start + 2 * h {
            lemma_in_block(p, b, 2 * h);
        }
    }
    assert(block_step(x, start, h, tw(b)) =~= spliced(f, s, start + 2 * h));
    assert(inverse_block_step(y, start, h, tw(b)) =~= spliced(g, s, start + 2 * h));
}

/// The inverse layer undoes the layer, and the layer undoes the inverse layer.
pub proof fn lemma_layer_inverts(s: Seq<F128>, h: int, tw: spec_fn(int) -> F128)
    requires
        h > 0,
        s.len() as int % (2 * h) == 0,
    ensures
        inverse_layer_map(layer_map(s, h, tw), h, tw) == s,
        layer_map(inverse_layer_map(s, h, tw), h, tw) == s,
{
    let f = layer_map(s, h, tw);
    let g = inverse_layer_map(s, h, tw);
    assert forall|p: int| #![trigger s[p]] 0 <= p < s.len() implies inverse_layer_map(f, h, tw)[p] == s[p]
        && layer_map(g, h, tw)[p] == s[p] by {
        lemma_block_of(p, 2 * h);
        lemma_block_inside(p, 2 * h, s.len() as int);
        let b = p / (2 * h);
        let t = tw(b);
        assert((b + 1) * (2 * h) == b * (2 * h) + 2 * h) by (nonlinear_arith);
        if p % (2 * h) < h {
            lemma_in_block(p + h, b, 2 * h);
            let (u, v) = (s[p], s[p + h]);
            // forward: (u', v') = (u + v·t, v + u')
            lemma_add_rules(v, u + v * t, v, v);
            lemma_add_rules(u + v * t, v, v, v);
            lemma_add_rules(u, v * t, v * t, v * t);
            lemma_add_rules(v, u, u, u);
            lemma_add_rules(u, (v + u) * t, v, v);
            assert(f[p] == u + v * t);
            assert(f[p + h] == v + (u + v * t));
            assert(f[p + h] + f[p] == v);
            assert(g[p] == u + (v + u) * t);
            assert(g[p + h] == v + u);
        } else {
            lemma_in_block(p - h, b, 2 * h);
            let (u, v) = (s[p - h], s[p]);
            lemma_add_rules(v, u + v * t, v, v);
            assert(f[p - h] == u + v * t);
            assert(f[p] == v + (u + v * t));
            assert(g[p - h] == u + (v + u) * t);
            assert(g[p] == v + u);
            let w = (v + u) * t;
            lemma_add_rules(u, w, w, w);
            lemma_add_rules(v, u, u, u);
        }
    }
    assert(inverse_layer_map(f, h, tw) =~= s);
    assert(layer_map(g, h, tw) =~= s);
}

/// Element-wise sum.
pub open spec fn seq_add(a: Seq<F128>, b: Seq<F128>) -> Seq<F128> {
    Seq::new(a.len(), |i: int| a[i] + b[i])
}

/// Element-wise multiple.
pub open spec fn seq_scale(c: F128, a: Seq<F128>) -> Seq<F128> {
    Seq::new(a.len(), |i: int| c * a[i])
}

/// `n` zeros.
pub open spec fn seq_zero(n: nat) -> Seq<F128> {
    Seq::new(n, |i: int| F128::zero())
}

/// A layer is linear.
pub proof fn lemma_layer_linear(a: Seq<F128>, b: Seq<F128>, c: F128, h: int, tw: spec_fn(int) -> F128)
    requires
        h > 0,
        a.len() == b.len(),
        a.len() as int % (2 * h) == 0,
    ensures
        layer_map(seq_add(a, b), h, tw) == seq_add(layer_map(a, h, tw), layer_map(b, h, tw)),
        layer_map(seq_scale(c, a), h, tw) == seq_scale(c, layer_map(a, h, tw)),
        layer_map(seq_zero(a.len()), h, tw) == seq_zero(a.len()),
{
    let s = seq_add(a, b);
    let k = seq_scale(c, a);
    let z = seq_zero(a.len());
    assert forall|p: int| #![trigger a[p]] 0 <= p < a.len() implies layer_map(s, h, tw)[p] == layer_map(a, h, tw)[p]
        + layer_map(b, h, tw)[p] && layer_map(k, h, tw)[p] == c * layer_map(a, h, tw)[p]
        && layer_map(z, h, tw)[p] == F128::zero() by {
        lemma_block_of(p, 2 * h);
        lemma_block_inside(p, 2 * h, a.len() as int);
        let q = p / (2 * h);
        let t = tw(q);
        assert((q + 1) * (2 * h) == q * (2 * h) + 2 * h) by (nonlinear_arith);
        lemma_mul_units(t);
        lemma_add_zero(F128::zero());
        if p % (2 * h) < h {
            lemma_mul_distributes(t, a[p + h], b[p + h]);
            lemma_add_rules(a[p], b[p], a[p + h] * t, b[p + h] * t);
            lemma_mul_distributes(c, a[p], a[p + h] * t);
            crate::field::gf2_128::lemma_mul_associates(c, a[p + h], t);
        } else {
            lemma_mul_distributes(t, a[p], b[p]);
            lemma_add_rules(a[p - h], b[p - h], a[p] * t, b[p] * t);
            lemma_add_rules(a[p], b[p], a[p - h] + a[p] * t, b[p - h] + b[p] * t);
            lemma_mul_distributes(c, a[p], a[p - h] + a[p] * t);
            lemma_mul_distributes(c, a[p - h], a[p] * t);
            crate::field::gf2_128::lemma_mul_associates(c, a[p], t);
        }
    }
    assert(layer_map(s, h, tw) =~= seq_add(layer_map(a, h, tw), layer_map(b, h, tw)));
    assert(layer_map(k, h, tw) =~= seq_scale(c, layer_map(a, h, tw)));
    assert forall|p: int| 0 <= p < a.len() implies #[trigger] layer_map(z, h, tw)[p]
        == F128::zero() by {
        let witness = a[p];
    }
    assert(layer_map(z, h, tw) =~= z);
}

/// The `lane`-th of `lanes` interleaved sequences.
pub open spec fn lane_of(s: Seq<F128>, lanes: int, lane: int) -> Seq<F128> {
    Seq::new((s.len() as int / lanes) as nat, |i: int| s[i * lanes + lane])
}

/// A layer over interleaved lanes is the layer on each lane.
pub proof fn lemma_layer_per_lane(
    s: Seq<F128>,
    h: int,
    lanes: int,
    lane: int,
    tw: spec_fn(int) -> F128,
)
    requires
        h > 0,
        lanes > 0,
        0 <= lane < lanes,
        s.len() as int % (2 * (h * lanes)) == 0,
    ensures
        lane_of(layer_map(s, h * lanes, tw), lanes, lane) == layer_map(
            lane_of(s, lanes, lane),
            h,
            tw,
        ),
{
    let hl = h * lanes;
    assert(hl > 0) by (nonlinear_arith)
        requires
            hl == h * lanes,
            h > 0,
            lanes > 0,
    ;
    let f = layer_map(s, hl, tw);
    let small = lane_of(s, lanes, lane);
    let n = s.len() as int / lanes;
    lemma_block_of(s.len() as int, 2 * hl);
    let blocks = s.len() as int / (2 * hl);
    assert(s.len() == (blocks * (2 * h)) * lanes + 0) by (nonlinear_arith)
        requires
            s.len() == blocks * (2 * hl),
            hl == h * lanes,
    ;
    lemma_fundamental_div_mod_converse(s.len() as int, lanes, blocks * (2 * h), 0);
    assert forall|i: int| 0 <= i < n implies lane_of(f, lanes, lane)[i] == layer_map(
        small,
        h,
        tw,
    )[i] by {
        let p = i * lanes + lane;
        lemma_block_of(i, 2 * h);
        let b = i / (2 * h);
        let r = i % (2 * h);
        assert(p == b * (2 * hl) + (r * lanes + lane)) by (nonlinear_arith)
            requires
                p == i * lanes + lane,
                i == b * (2 * h) + r,
                hl == h * lanes,
        ;
        assert(0 <= r * lanes + lane < 2 * hl) by (nonlinear_arith)
            requires
                0 <= r,
                r + 1 <= 2 * h,
                0 <= lane,
                lane < lanes,
                hl == h * lanes,
        ;
        lemma_fundamental_div_mod_converse(p, 2 * hl, b, r * lanes + lane);
        assert(r < h <==> r * lanes + lane < hl) by (nonlinear_arith)
            requires
                0 <= r,
                0 <= lane,
                lane < lanes,
                hl == h * lanes,
        ;
        assert((i + h) * lanes + lane == p + hl) by (nonlinear_arith)
            requires
                p == i * lanes + lane,
                hl == h * lanes,
        ;
        assert((i - h) * lanes + lane == p - hl) by (nonlinear_arith)
            requires
                p == i * lanes + lane,
                hl == h * lanes,
        ;
        assert(0 <= p < s.len()) by (nonlinear_arith)
            requires
                p == i * lanes + lane,
                0 <= i,
                i + 1 <= n,
                0 <= lane,
                lane < lanes,
                s.len() == n * lanes,
        ;
        assert(b < blocks) by (nonlinear_arith)
            requires
                b * (2 * h) <= i,
                i < blocks * (2 * h),
                h > 0,
        ;
        assert((b + 1) * (2 * h) <= blocks * (2 * h)) by (nonlinear_arith)
            requires
                b < blocks,
                h > 0,
        ;
        assert((b + 1) * (2 * h) == b * (2 * h) + 2 * h) by (nonlinear_arith);
    }
    assert(lane_of(f, lanes, lane) =~= layer_map(small, h, tw));
}


/// Doing block `b` of two consecutive layers after the blocks before it gives
/// the blocks up to `b` of both layers.
pub proof fn lemma_two_layer_progress(
    s: Seq<F128>,
    q: int,
    tw1: spec_fn(int) -> F128,
    tw2: spec_fn(int) -> F128,
    b: int,
)
    requires
        q > 0,
        b >= 0,
        (b + 1) * (4 * q) <= s.len(),
    ensures
        ({
            let f = layer_map(layer_map(s, 2 * q, tw1), q, tw2);
            let start = b * (4 * q);
            let x1 = block_step(spliced(f, s, start), start, 2 * q, tw1(b));
            let x2 = block_step(x1, start, q, tw2(2 * b));
            let x3 = block_step(x2, start + 2 * q, q, tw2(2 * b + 1));
            x3 == spliced(f, s, (b + 1) * (4 * q))
        }),
{
    let f1 = layer_map(s, 2 * q, tw1);
    let f = layer_map(f1, q, tw2);
    let start = b * (4 * q);
    let x0 = spliced(f, s, start);
    let x1 = block_step(x0, start, 2 * q, tw1(b));
    let x2 = block_step(x1, start, q, tw2(2 * b));
    let x3 = block_step(x2, start + 2 * q, q, tw2(2 * b + 1));
    assert((b + 1) * (4 * q) == start + 4 * q) by (nonlinear_arith)
        requires
            start == b * (4 * q),
    ;
    assert forall|p: int| start <= p < start + 4 * q implies #[trigger] x1[p] == f1[p] by {
        lemma_in_block(p, b, 2 * (2 * q));
    }
    assert forall|p: int| #![trigger s[p]] 0 <= p < s.len() implies x3[p] == spliced(
        f,
        s,
        start + 4 * q,
    )[p] by {
        if start <= p < start + 2 * q {
            assert(start == (2 * b) * (2 * q) && (2 * b + 1) * (2 * q) == start + 2 * q)
                by (nonlinear_arith)
                requires
                    start == b * (4 * q),
            ;
            lemma_in_block(p, 2 * b, 2 * q);
            if p < start + q {
                assert(x1[p + q] == f1[p + q]);
            } else {
                assert(x1[p - q] == f1[p - q]);
            }
            assert(x1[p] == f1[p]);
            assert(x2[p] == f[p]);
        } else if start + 2 * q <= p < start + 4 * q {
            assert(start + 2 * q == (2 * b + 1) * (2 * q) && (2 * b + 2) * (2 * q) == start + 4 * q)
                by (nonlinear_arith)
                requires
                    start == b * (4 * q),
            ;
            lemma_in_block(p, 2 * b + 1, 2 * q);
            if p < start + 3 * q {
                assert(x1[p + q] == f1[p + q]);
                assert(x2[p + q] == x1[p + q]);
            } else {
                assert(x1[p - q] == f1[p - q]);
                assert(x2[p - q] == x1[p - q]);
            }
            assert(x1[p] == f1[p]);
            assert(x2[p] == x1[p]);
        }
    }
    assert(x3 =~= spliced(f, s, start + 4 * q));
}

/// `b` on `[from, to)`, `a` elsewhere.
pub open spec fn patched(a: Seq<F128>, b: Seq<F128>, from: int, to: int) -> Seq<F128> {
    Seq::new(a.len(), |p: int| if from <= p < to { b[p] } else { a[p] })
}

/// Within a window, doing block `b` of a layer after the blocks before it.
pub proof fn lemma_window_progress(
    a: Seq<F128>,
    s: Seq<F128>,
    h: int,
    tw: spec_fn(int) -> F128,
    b: int,
    from: int,
    to: int,
)
    requires
        h > 0,
        b >= 0,
        a.len() == s.len(),
        0 <= from <= b * (2 * h),
        (b + 1) * (2 * h) <= to <= s.len(),
    ensures
        ({
            let f = layer_map(s, h, tw);
            let x = patched(patched(a, s, from, to), f, from, b * (2 * h));
            block_step(x, b * (2 * h), h, tw(b)) == patched(
                patched(a, s, from, to),
                f,
                from,
                (b + 1) * (2 * h),
            )
        }),
{
    let f = layer_map(s, h, tw);
    let start = b * (2 * h);
    let base = patched(a, s, from, to);
    let x = patched(base, f, from, start);
    assert((b + 1) * (2 * h) == start + 2 * h) by (nonlinear_arith)
        requires
            start == b * (2 * h),
    ;
    let y = block_step(x, start, h, tw(b));
    let z = patched(base, f, from, start + 2 * h);
    assert forall|p: int| #![trigger s[p]] 0 <= p < s.len() implies y[p] == z[p] by {
        if start <= p < start + 2 * h {
            lemma_in_block(p, b, 2 * h);
        }
    }
    assert(y =~= z);
}

} // verus!
