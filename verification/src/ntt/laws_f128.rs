//! What the additive NTT over GF(2^128) promises as a whole.
use vstd::arithmetic::div_mod::lemma_fundamental_div_mod_converse;
use vstd::arithmetic::power2::{lemma_pow2_adds, lemma_pow2_pos, pow2};
use vstd::prelude::*;
use crate::field::gf2_128::{lemma_add_zero, lemma_mul_units, F128};
use crate::index::{lemma_log2, log2, power_of_two};
use crate::ntt::additive_ntt_f128::{half_block, lemma_layer_shape, span_partial, AdditiveNttF128};
use crate::ntt::layers::{
    inverse_layer_map, lane_of, layer_map, lemma_block_inside, lemma_block_of, lemma_in_block,
    lemma_layer_inverts, lemma_layer_linear, lemma_layer_per_lane, seq_add, seq_scale, seq_zero,
};

verus! {

pub proof fn lemma_forward_layers_len(
    ntt: &AdditiveNttF128,
    s: Seq<F128>,
    log_d: nat,
    lanes: nat,
    from: nat,
    to: nat,
)
    ensures
        ntt.forward_layers(s, log_d, lanes, from, to).len() == s.len(),
    decreases to,
{
    if to > from {
        lemma_forward_layers_len(ntt, s, log_d, lanes, from, (to - 1) as nat);
    }
}

proof fn lemma_inverse_layers_len(ntt: &AdditiveNttF128, s: Seq<F128>, log_d: nat, to: nat)
    ensures
        ntt.inverse_layers(s, log_d, to).len() == s.len(),
    decreases to,
{
    if to > 0 {
        let l = (to - 1) as nat;
        lemma_inverse_layers_len(
            ntt,
            inverse_layer_map(s, half_block(log_d, 1, l), ntt.layer_twiddles(l)),
            log_d,
            l,
        );
    }
}

proof fn lemma_layers_invert(ntt: &AdditiveNttF128, s: Seq<F128>, log_d: nat, to: nat)
    requires
        s.len() == pow2(log_d),
        to <= log_d,
    ensures
        ntt.inverse_layers(ntt.forward_layers(s, log_d, 1, 0, to), log_d, to) == s,
        ntt.forward_layers(ntt.inverse_layers(s, log_d, to), log_d, 1, 0, to) == s,
    decreases to,
{
    if to > 0 {
        let l = (to - 1) as nat;
        let h = half_block(log_d, 1, l);
        let tw = ntt.layer_twiddles(l);
        lemma_layer_shape(log_d, 1, l);
        lemma_layers_invert(ntt, s, log_d, l);
        lemma_forward_layers_len(ntt, s, log_d, 1, 0, l);
        lemma_layer_inverts(ntt.forward_layers(s, log_d, 1, 0, l), h, tw);
        let y = inverse_layer_map(s, h, tw);
        lemma_layers_invert(ntt, y, log_d, l);
        lemma_layer_inverts(s, h, tw);
    }
}

/// The inverse transform undoes the forward transform, and the forward
/// transform undoes the inverse transform.
pub proof fn lemma_forward_inverse_roundtrip(ntt: &AdditiveNttF128, s: Seq<F128>)
    requires
        power_of_two(s.len()),
    ensures
        ntt.inverse(ntt.forward(s)) == s,
        ntt.forward(ntt.inverse(s)) == s,
{
    let log_d = log2(s.len());
    assert(s.len() / 1 == s.len());
    lemma_layers_invert(ntt, s, log_d, log_d);
    lemma_forward_layers_len(ntt, s, log_d, 1, 0, log_d);
    lemma_inverse_layers_len(ntt, s, log_d, log_d);
}

/// The layers are linear.
pub proof fn lemma_layers_linear(
    ntt: &AdditiveNttF128,
    a: Seq<F128>,
    b: Seq<F128>,
    c: F128,
    log_d: nat,
    lanes: nat,
    from: nat,
    to: nat,
)
    requires
        lanes > 0,
        a.len() == b.len(),
        a.len() == pow2(log_d) * lanes,
        to <= log_d,
    ensures
        ntt.forward_layers(seq_add(a, b), log_d, lanes, from, to) == seq_add(
            ntt.forward_layers(a, log_d, lanes, from, to),
            ntt.forward_layers(b, log_d, lanes, from, to),
        ),
        ntt.forward_layers(seq_scale(c, a), log_d, lanes, from, to) == seq_scale(
            c,
            ntt.forward_layers(a, log_d, lanes, from, to),
        ),
        ntt.forward_layers(seq_zero(a.len()), log_d, lanes, from, to) == seq_zero(a.len()),
    decreases to,
{
    if to > from {
        let l = (to - 1) as nat;
        lemma_layers_linear(ntt, a, b, c, log_d, lanes, from, l);
        lemma_layer_shape(log_d, lanes, l);
        lemma_forward_layers_len(ntt, a, log_d, lanes, from, l);
        lemma_forward_layers_len(ntt, b, log_d, lanes, from, l);
        lemma_layer_linear(
            ntt.forward_layers(a, log_d, lanes, from, l),
            ntt.forward_layers(b, log_d, lanes, from, l),
            c,
            half_block(log_d, lanes, l),
            ntt.layer_twiddles(l),
        );
    }
}

/// The forward transform is linear; in particular it sends zero to zero.
pub proof fn lemma_forward_is_linear(
    ntt: &AdditiveNttF128,
    a: Seq<F128>,
    b: Seq<F128>,
    c: F128,
)
    requires
        a.len() == b.len(),
        power_of_two(a.len()),
    ensures
        ntt.forward(seq_add(a, b)) == seq_add(ntt.forward(a), ntt.forward(b)),
        ntt.forward(seq_scale(c, a)) == seq_scale(c, ntt.forward(a)),
        ntt.forward(seq_zero(a.len())) == seq_zero(a.len()),
{
    let log_d = log2(a.len());
    assert(a.len() / 1 == a.len());
    lemma_layers_linear(ntt, a, b, c, log_d, 1, 0, log_d);
}

proof fn lemma_layers_per_lane(
    ntt: &AdditiveNttF128,
    s: Seq<F128>,
    log_d: nat,
    lanes: nat,
    lane: int,
    from: nat,
    to: nat,
)
    requires
        lanes > 0,
        0 <= lane < lanes,
        s.len() == pow2(log_d) * lanes,
        to <= log_d,
    ensures
        lane_of(ntt.forward_layers(s, log_d, lanes, from, to), lanes as int, lane)
            == ntt.forward_layers(lane_of(s, lanes as int, lane), log_d, 1, from, to),
    decreases to,
{
    if to > from {
        let l = (to - 1) as nat;
        lemma_layers_per_lane(ntt, s, log_d, lanes, lane, from, l);
        lemma_forward_layers_len(ntt, s, log_d, lanes, from, l);
        lemma_layer_shape(log_d, lanes, l);
        lemma_layer_shape(log_d, 1, l);
        let h = half_block(log_d, 1, l);
        assert(half_block(log_d, lanes, l) == h * lanes);
        lemma_layer_per_lane(
            ntt.forward_layers(s, log_d, lanes, from, l),
            h,
            lanes as int,
            lane,
            ntt.layer_twiddles(l),
        );
    }
}

/// The interleaved transform is the transform of each lane.
pub proof fn lemma_interleaved_matches_per_lane(
    ntt: &AdditiveNttF128,
    s: Seq<F128>,
    lanes: nat,
    lane: int,
    from: nat,
)
    requires
        lanes > 0,
        s.len() % lanes == 0,
        power_of_two(s.len() / lanes),
        0 <= lane < lanes,
    ensures
        lane_of(ntt.forward_from(s, lanes, from), lanes as int, lane) == ntt.forward_from(
            lane_of(s, lanes as int, lane),
            1,
            from,
        ),
{
    let log_d = log2(s.len() / lanes);
    lemma_block_of(s.len() as int, lanes as int);
    lemma_layers_per_lane(ntt, s, log_d, lanes, lane, from, log_d);
    let small = lane_of(s, lanes as int, lane);
    assert(small.len() == s.len() / lanes);
    assert(small.len() / 1 == small.len());
}

/// A message followed by zeros, up to length `n`.
pub open spec fn zero_padded(msg: Seq<F128>, n: nat) -> Seq<F128> {
    Seq::new(n, |p: int| if p < msg.len() { msg[p] } else { F128::zero() })
}

/// A message repeated up to length `n`.
pub open spec fn repeated(msg: Seq<F128>, n: nat) -> Seq<F128> {
    Seq::new(n, |p: int| msg[p % (msg.len() as int)])
}

/// Copies of a zero-padded message in blocks of length `size`.
spec fn padded_blocks(msg: Seq<F128>, size: int, n: nat) -> Seq<F128> {
    Seq::new(
        n,
        |p: int|
            if p % size < msg.len() {
                msg[p % size]
            } else {
                F128::zero()
            },
    )
}

proof fn lemma_padding_layer(
    msg: Seq<F128>,
    h: int,
    n: nat,
    tw: spec_fn(int) -> F128,
)
    requires
        h > 0,
        msg.len() <= h,
        n as int % (2 * h) == 0,
    ensures
        layer_map(padded_blocks(msg, 2 * h, n), h, tw) == padded_blocks(msg, h, n),
{
    let s = padded_blocks(msg, 2 * h, n);
    let f = layer_map(s, h, tw);
    let g = padded_blocks(msg, h, n);
    assert forall|p: int| 0 <= p < n implies #[trigger] f[p] == g[p] by {
        lemma_block_of(p, 2 * h);
        lemma_block_inside(p, 2 * h, n as int);
        let b = p / (2 * h);
        let t = tw(b);
        assert((b + 1) * (2 * h) == b * (2 * h) + 2 * h) by (nonlinear_arith);
        assert(b * (2 * h) == (2 * b) * h && (2 * b + 1) * h == b * (2 * h) + h && (2 * b + 2) * h
            == b * (2 * h) + 2 * h) by (nonlinear_arith);
        lemma_mul_units(t);
        if p % (2 * h) < h {
            lemma_in_block(p + h, b, 2 * h);
            lemma_in_block(p, 2 * b, h);
            lemma_add_zero(s[p]);
        } else {
            lemma_in_block(p - h, b, 2 * h);
            lemma_in_block(p, 2 * b + 1, h);
            lemma_add_zero(s[p - h]);
        }
    }
    assert(f =~= g);
}

proof fn lemma_padding_layers(
    ntt: &AdditiveNttF128,
    msg: Seq<F128>,
    log_d: nat,
    lanes: nat,
    r: nat,
    to: nat,
)
    requires
        lanes > 0,
        to <= r <= log_d,
        msg.len() == pow2((log_d - r) as nat) * lanes,
    ensures
        ntt.forward_layers(
            padded_blocks(msg, (pow2(log_d) * lanes) as int, pow2(log_d) * lanes),
            log_d,
            lanes,
            0,
            to,
        ) == padded_blocks(
            msg,
            (pow2((log_d - to) as nat) * lanes) as int,
            pow2(log_d) * lanes,
        ),
    decreases to,
{
    if to > 0 {
        let l = (to - 1) as nat;
        lemma_padding_layers(ntt, msg, log_d, lanes, r, l);
        lemma_layer_shape(log_d, lanes, l);
        let h = half_block(log_d, lanes, l);
        let e = pow2((log_d - to) as nat) as int;
        assert(pow2((log_d - l) as nat) * lanes == 2 * h) by (nonlinear_arith)
            requires
                pow2((log_d - l) as nat) == 2 * e,
                h == e * lanes,
        ;
        lemma_pow2_adds((log_d - r) as nat, (r - to) as nat);
        lemma_pow2_pos((r - to) as nat);
        let (x, y) = (pow2((log_d - r) as nat) as int, pow2((r - to) as nat) as int);
        assert(msg.len() <= h) by (nonlinear_arith)
            requires
                msg.len() == x * lanes,
                h == (x * y) * lanes,
                y >= 1,
                x >= 0,
        ;
        lemma_padding_layer(msg, h, pow2(log_d) * lanes, ntt.layer_twiddles(l));
    }
}

/// The first `r` layers on a message padded with zeros to `2^r` times its length
/// do no more than repeat the message `2^r` times. So an encoder may repeat the
/// message and begin at layer `r`.
pub proof fn lemma_zero_padding_layers_repeat(
    ntt: &AdditiveNttF128,
    msg: Seq<F128>,
    log_d: nat,
    lanes: nat,
    r: nat,
)
    requires
        lanes > 0,
        r <= log_d,
        msg.len() == pow2((log_d - r) as nat) * lanes,
    ensures
        ntt.forward_layers(zero_padded(msg, pow2(log_d) * lanes), log_d, lanes, 0, r) == repeated(
            msg,
            pow2(log_d) * lanes,
        ),
        ntt.forward_from(zero_padded(msg, pow2(log_d) * lanes), lanes, 0) == ntt.forward_from(
            repeated(msg, pow2(log_d) * lanes),
            lanes,
            r,
        ),
{
    let n = pow2(log_d) * lanes;
    let m = msg.len() as int;
    lemma_pow2_pos(log_d);
    lemma_pow2_pos((log_d - r) as nat);
    assert(n > 0 && m > 0) by (nonlinear_arith)
        requires
            n == pow2(log_d) * lanes,
            m == pow2((log_d - r) as nat) * lanes,
            pow2(log_d) > 0,
            pow2((log_d - r) as nat) > 0,
            lanes > 0,
    ;
    lemma_padding_layers(ntt, msg, log_d, lanes, r, r);
    assert forall|p: int| 0 <= p < n implies #[trigger] padded_blocks(
        msg,
        n as int,
        n,
    )[p] == zero_padded(msg, n)[p] by {
        lemma_fundamental_div_mod_converse(p, n as int, 0, p);
    }
    assert(padded_blocks(msg, n as int, n) =~= zero_padded(msg, n));
    assert forall|p: int| 0 <= p < n implies #[trigger] padded_blocks(msg, m, n)[p]
        == repeated(msg, n)[p] by {
        lemma_block_of(p, m);
    }
    assert(padded_blocks(msg, m, n) =~= repeated(msg, n));
    lemma_fundamental_div_mod_converse(n as int, lanes as int, pow2(log_d) as int, 0);
    lemma_log2(log_d);
    lemma_layers_compose(ntt, zero_padded(msg, n), log_d, lanes, 0, r, log_d);
}

/// Layers compose.
pub proof fn lemma_layers_compose(
    ntt: &AdditiveNttF128,
    s: Seq<F128>,
    log_d: nat,
    lanes: nat,
    from: nat,
    mid: nat,
    to: nat,
)
    requires
        from <= mid <= to,
    ensures
        ntt.forward_layers(
            ntt.forward_layers(s, log_d, lanes, from, mid),
            log_d,
            lanes,
            mid,
            to,
        ) == ntt.forward_layers(s, log_d, lanes, from, to),
    decreases to,
{
    if to > mid {
        lemma_layers_compose(ntt, s, log_d, lanes, from, mid, (to - 1) as nat);
    }
}

proof fn lemma_span_of_zero_index(basis: Seq<F128>, n: nat)
    ensures
        span_partial(basis, 0, n) == F128::zero(),
    decreases n,
{
    if n > 0 {
        lemma_span_of_zero_index(basis, (n - 1) as nat);
        lemma_pow2_pos((n - 1) as nat);
        lemma_fundamental_div_mod_converse(0, pow2((n - 1) as nat) as int, 0, 0);
    }
}

/// The first block of every layer has twiddle zero; layer 0 has no other block.
pub proof fn lemma_first_block_twiddle(ntt: &AdditiveNttF128, l: nat)
    ensures
        ntt.twiddle_at(l, 0) == F128::zero(),
{
    let row = ntt.table()[ntt.dim() - l - 1];
    lemma_span_of_zero_index(row.subrange(1, row.len() as int), row.subrange(1, row.len() as int).len());
}

} // verus!
