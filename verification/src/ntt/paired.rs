//! The forward transform with its butterflies taken two at a time, for a multiplier
//! that works on pairs.
use vstd::arithmetic::power2::{lemma2_to64, lemma_pow2_unfold, pow2};
use vstd::prelude::*;
use crate::field::gf2_128::aarch64::ghash_mul_vec2_neon;
use crate::field::gf2_128::{lemma_mul_commutes, F128};
use crate::index::{log2, log2_pow2, pow2_usize, power_of_two};
use crate::ntt::additive_ntt_f128::{
    half_block, lemma_layer_bounds, lemma_layer_shape, lemma_one_lane, AdditiveNttF128,
};
use crate::ntt::layers::{block_step, layer_map, lemma_layer_progress, spliced};

verus! {

/// The butterflies of the block that begins at `start`, two consecutive ones at a
/// time, so that the twiddle is shared by a pair of multiplications.
#[inline]
fn butterfly_block_neon(data: &mut [F128], start: usize, half: usize, twiddle: F128)
    requires
        half % 2 == 0,
        start + 2 * half <= old(data)@.len(),
    ensures
        final(data)@ == block_step(old(data)@, start as int, half as int, twiddle),
{
    let n: usize = data.len();
    let ghost s = data@;
    let ghost f = block_step(s, start as int, half as int, twiddle);
    let mut k: usize = 0;
    while k < half
        invariant
            k <= half,
            k % 2 == 0,
            half % 2 == 0,
            n == data@.len(),
            start + 2 * half <= n,
            data@.len() == s.len(),
            f == block_step(s, start as int, half as int, twiddle),
            forall|p: int|
                0 <= p < s.len() ==> #[trigger] data@[p] == (if start <= p < start + k || start
                    + half <= p < start + half + k {
                    f[p]
                } else {
                    s[p]
                }),
        decreases half - k,
    {
        let (i0, i1) = (start + k, start + k + half);
        let u_a = data[i0];
        let v_a = data[i1];
        let u_b = data[i0 + 1];
        let v_b = data[i1 + 1];
        let prod = ghash_mul_vec2_neon([twiddle, twiddle], [v_a, v_b]);
        proof {
            lemma_mul_commutes(twiddle, v_a);
            lemma_mul_commutes(twiddle, v_b);
            assert(prod@[0] == v_a * twiddle && prod@[1] == v_b * twiddle);
        }
        let new_u_a = u_a + prod[0];
        let new_u_b = u_b + prod[1];
        data[i0] = new_u_a;
        data[i1] = v_a + new_u_a;
        data[i0 + 1] = new_u_b;
        data[i1 + 1] = v_b + new_u_b;
        k = k + 2;
    }
    assert(data@ =~= f);
}

/// Two butterflies across the adjacent blocks of one pair each that begin at `base`,
/// with different twiddles.
#[inline]
fn butterfly_across_blocks_neon(data: &mut [F128], base: usize, t_a: F128, t_b: F128)
    requires
        base + 4 <= old(data)@.len(),
    ensures
        final(data)@ == block_step(block_step(old(data)@, base as int, 1, t_a), base + 2, 1, t_b),
{
    let n: usize = data.len();
    let ghost s = data@;
    let u_a = data[base];
    let v_a = data[base + 1];
    let u_b = data[base + 2];
    let v_b = data[base + 3];
    let prod = ghash_mul_vec2_neon([t_a, t_b], [v_a, v_b]);
    proof {
        lemma_mul_commutes(t_a, v_a);
        lemma_mul_commutes(t_b, v_b);
        assert(prod@[0] == v_a * t_a && prod@[1] == v_b * t_b);
    }
    let new_u_a = u_a + prod[0];
    let new_u_b = u_b + prod[1];
    data[base] = new_u_a;
    data[base + 1] = v_a + new_u_a;
    data[base + 2] = new_u_b;
    data[base + 3] = v_b + new_u_b;
    proof {
        let x = block_step(s, base as int, 1, t_a);
        assert(data@ =~= block_step(x, base + 2, 1, t_b));
    }
}

impl AdditiveNttF128 {
    /// A layer with at least two butterflies per block.
    fn apply_layer_in_pairs(&self, data: &mut [F128], log_d: usize, layer: usize)
        requires
            self.wf(),
            layer + 1 < log_d <= self.dim(),
            old(data)@.len() == pow2(log_d as nat),
        ensures
            final(data)@ == self.layer(old(data)@, log_d as nat, 1, layer as nat),
    {
        let ghost s = data@;
        let n: usize = data.len();
        let ghost h0 = half_block(log_d as nat, 1, layer as nat);
        let ghost tw = self.layer_twiddles(layer as nat);
        let ghost f = layer_map(s, h0, tw);
        proof {
            lemma_layer_shape(log_d as nat, 1, layer as nat);
            lemma_layer_bounds(log_d as nat, 1, layer as nat, n as nat);
            lemma_pow2_unfold((log_d - layer - 1) as nat);
        }
        let num_blocks: usize = pow2_usize(layer);
        let h: usize = pow2_usize(log_d - layer - 1);
        let mut block: usize = 0;
        assert(spliced(f, s, 0 * (2 * h0)) =~= s);
        while block < num_blocks
            invariant
                self.wf(),
                block <= num_blocks,
                layer < log_d <= self.dim(),
                log_d < usize::BITS,
                h == h0,
                h > 0,
                h % 2 == 0,
                s.len() == n,
                n == num_blocks * (2 * h),
                num_blocks == pow2(layer as nat),
                tw == self.layer_twiddles(layer as nat),
                f == layer_map(s, h0, tw),
                data@ == spliced(f, s, block * (2 * h0)),
            decreases num_blocks - block,
        {
            proof {
                assert((block + 1) * (2 * h) <= num_blocks * (2 * h)) by (nonlinear_arith)
                    requires
                        block < num_blocks,
                ;
                assert((block + 1) * (2 * h) == block * (2 * h) + 2 * h) by (nonlinear_arith);
                lemma_layer_progress(s, h0, tw, block as int);
                assert(tw(block as int) == self.twiddle_at(layer as nat, block as nat));
            }
            let t = self.twiddle(layer, block);
            butterfly_block_neon(data, block * (2 * h), h, t);
            block = block + 1;
        }
        assert(data@ =~= f);
    }

    /// The deepest layer, of one butterfly per block, two adjacent blocks at a time.
    fn apply_deepest_layer_in_pairs(&self, data: &mut [F128], log_d: usize)
        requires
            self.wf(),
            2 <= log_d <= self.dim(),
            old(data)@.len() == pow2(log_d as nat),
        ensures
            final(data)@ == self.layer(old(data)@, log_d as nat, 1, (log_d - 1) as nat),
    {
        let ghost s = data@;
        let n: usize = data.len();
        let layer: usize = log_d - 1;
        let ghost tw = self.layer_twiddles(layer as nat);
        let ghost f = layer_map(s, 1, tw);
        proof {
            lemma2_to64();
            lemma_layer_shape(log_d as nat, 1, layer as nat);
            lemma_layer_bounds(log_d as nat, 1, layer as nat, n as nat);
            lemma_pow2_unfold(layer as nat);
            lemma_pow2_unfold(log_d as nat);
            assert(half_block(log_d as nat, 1, layer as nat) == 1);
        }
        let num_blocks: usize = pow2_usize(layer);
        let mut block: usize = 0;
        assert(spliced(f, s, 0) =~= s);
        while block < num_blocks
            invariant
                self.wf(),
                block <= num_blocks,
                block % 2 == 0,
                num_blocks % 2 == 0,
                layer + 1 == log_d <= self.dim(),
                log_d < usize::BITS,
                s.len() == n,
                n == 2 * num_blocks,
                num_blocks == pow2(layer as nat),
                tw == self.layer_twiddles(layer as nat),
                f == layer_map(s, 1, tw),
                data@ == spliced(f, s, 2 * block),
            decreases num_blocks - block,
        {
            proof {
                lemma_layer_progress(s, 1, tw, block as int);
                lemma_layer_progress(s, 1, tw, block + 1);
                assert(tw(block as int) == self.twiddle_at(layer as nat, block as nat));
                assert(tw(block + 1) == self.twiddle_at(layer as nat, (block + 1) as nat));
            }
            let t_a = self.twiddle(layer, block);
            let t_b = self.twiddle(layer, block + 1);
            butterfly_across_blocks_neon(data, block * 2, t_a, t_b);
            block = block + 2;
        }
        assert(data@ =~= f);
    }

    /// The layers of the forward transform, in pairs of butterflies where there are two.
    fn apply_layers_in_pairs(&self, data: &mut [F128], log_d: usize)
        requires
            self.wf(),
            log_d <= self.dim(),
            old(data)@.len() == pow2(log_d as nat),
        ensures
            final(data)@ == self.forward_layers(old(data)@, log_d as nat, 1, 0, log_d as nat),
    {
        let ghost s = data@;
        let mut layer: usize = 0;
        while layer < log_d
            invariant
                self.wf(),
                layer <= log_d <= self.dim(),
                data@.len() == pow2(log_d as nat),
                data@ == self.forward_layers(s, log_d as nat, 1, 0, layer as nat),
            decreases log_d - layer,
        {
            if layer + 1 < log_d {
                self.apply_layer_in_pairs(data, log_d, layer);
            } else if log_d >= 2 {
                self.apply_deepest_layer_in_pairs(data, log_d);
            } else {
                // A single pair.
                self.apply_layer(data, 1, log_d, layer);
            }
            layer = layer + 1;
        }
    }

    /// Forward transform by pairs of butterflies: within a block they share the
    /// twiddle, at the deepest layer they belong to adjacent blocks.
    pub fn forward_transform_neon(&self, data: &mut [F128])
        requires
            self.wf(),
            power_of_two(old(data)@.len()),
            log2(old(data)@.len()) <= self.dim(),
        ensures
            final(data)@ == self.forward(old(data)@),
    {
        let log_d: usize = log2_pow2(data.len());
        proof {
            lemma_one_lane(data@.len());
        }
        self.apply_layers_in_pairs(data, log_d);
    }

    /// Forward transform layer by layer. Up to `2^14` elements it is the
    /// single-threaded one; above, the blocks of a layer are independent of each other.
    pub fn forward_transform_parallel(&self, data: &mut [F128])
        requires
            self.wf(),
            power_of_two(old(data)@.len()),
            log2(old(data)@.len()) <= self.dim(),
        ensures
            final(data)@ == self.forward(old(data)@),
    {
        let log_d: usize = log2_pow2(data.len());
        if log_d <= PARALLEL_THRESHOLD_LOG {
            self.forward_transform_neon(data);
            return ;
        }
        proof {
            lemma_one_lane(data@.len());
        }
        self.apply_layers_in_pairs(data, log_d);
    }

    /// Cache-blocked forward transform: the top layers sweep the whole buffer, the
    /// deep layers run on sub-transforms of `2^17` elements, each of them through all
    /// its layers before the next. Up to that size the transform runs layer by layer.
    pub fn forward_transform_batched(&self, data: &mut [F128])
        requires
            self.wf(),
            power_of_two(old(data)@.len()),
            log2(old(data)@.len()) <= self.dim(),
        ensures
            final(data)@ == self.forward(old(data)@),
    {
        let log_d: usize = log2_pow2(data.len());
        if log_d <= TARGET_SUB_NTT_LOG {
            self.forward_transform_parallel(data);
            return ;
        }
        proof {
            lemma_one_lane(data@.len());
        }
        self.forward_transform_cut(data, 1, 0, log_d - TARGET_SUB_NTT_LOG);
    }
}

/// Up to this log size a transform is not spread over threads.
const PARALLEL_THRESHOLD_LOG: usize = 14;

/// Log of the number of elements of a cache-resident sub-transform.
const TARGET_SUB_NTT_LOG: usize = 17;

} // verus!
