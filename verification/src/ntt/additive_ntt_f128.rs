//! Additive NTT over F_{2^128} using the LCH novel polynomial basis.
//!
//! The forward transform maps polynomial coefficients (in the novel polynomial
//! basis) to evaluations over an F_2-affine subspace; the inverse reverses this.
//!
//! ## Convention
//!
//! Given a basis `{β_0, …, β_{ℓ-1}}` of an F_2-subspace V ⊂ F_{2^128}, define
//! the subspace polynomials W_i recursively:
//! ```text
//!     W_0(z) = z
//!     W_i(z) = W_{i-1}(z) · (W_{i-1}(z) + W_{i-1}(β_{i-1}))     (for i ≥ 1)
//! ```
//! and the *normalized* forms `Ŵ_i(z) = W_i(z) / W_i(β_i)` so that
//! `Ŵ_i(β_i) = 1`. The "twiddle" at layer `l` and block `b` is then
//! `Ŵ_{ℓ-l-1}(z)` evaluated at the `b`-th element of the F_2-span of
//! `{β_{ℓ-l}, β_{ℓ-l+1}, …, β_{ℓ-1}}`.
//!
//! At forward-transform layer `l` (`l = 0, …, log_d − 1`) there are `2^l`
//! blocks, each of size `2^(log_d − l)`; within each block, pairs at distance
//! `2^(log_d − l − 1)` are butterflied with the block's twiddle. So at layer 0
//! pairs are far apart, and at the deepest layer they are adjacent.
use vstd::arithmetic::power2::{
    lemma2_to64, lemma_pow2_adds, lemma_pow2_pos, lemma_pow2_strictly_increases,
    lemma_pow2_unfold, pow2,
};
use vstd::prelude::*;
use vstd::slice::slice_subrange;
use crate::field::gf2_128::software::Window;
use crate::field::F128;
use crate::threads::current_num_threads;
use crate::index::{
    bit_is_set, index_bit, lemma_pow2_fits, log2, log2_pow2, pow2_usize, power_of_two,
};
use crate::ntt::layers::{
    block_step, inverse_block_step, inverse_layer_map, layer_map, lemma_block_of,
    lemma_layer_progress, lemma_two_layer_progress, lemma_window_progress, patched, spliced,
};

verus! {

/// The subspace polynomial `W_i` of a basis, at `z`.
pub open spec fn subspace_poly(basis: Seq<F128>, i: nat, z: F128) -> F128
    decreases i,
{
    if i == 0 {
        z
    } else {
        let j = (i - 1) as nat;
        subspace_poly(basis, j, z) * (subspace_poly(basis, j, z) + subspace_poly(
            basis,
            j,
            basis[j as int],
        ))
    }
}

/// The normalized subspace polynomial `Ŵ_i` of a basis, at `z`.
pub open spec fn normalized_poly(basis: Seq<F128>, i: nat, z: F128) -> F128 {
    subspace_poly(basis, i, z) * subspace_poly(basis, i, basis[i as int]).inverse()
}

/// The table of `Ŵ_i(β_{i + k})`.
pub open spec fn evals_of(basis: Seq<F128>) -> Seq<Seq<F128>> {
    Seq::new(
        basis.len(),
        |i: int|
            Seq::new(
                (basis.len() - i) as nat,
                |k: int| normalized_poly(basis, i as nat, basis[i + k]),
            ),
    )
}

/// `Σ_{j < n} bit_j(idx) · basis[j]`.
pub open spec fn span_partial(basis: Seq<F128>, idx: nat, n: nat) -> F128
    decreases n,
{
    if n == 0 {
        F128::zero()
    } else if index_bit(idx, (n - 1) as nat) {
        span_partial(basis, idx, (n - 1) as nat) + basis[n - 1]
    } else {
        span_partial(basis, idx, (n - 1) as nat)
    }
}

/// The `idx`-th element of the F_2-span of `basis`.
pub open spec fn span_element(basis: Seq<F128>, idx: nat) -> F128 {
    span_partial(basis, idx, basis.len())
}

/// The views of a table's rows.
pub open spec fn rows_view(rows: Seq<Vec<F128>>) -> Seq<Seq<F128>> {
    rows.map_values(|row: Vec<F128>| row@)
}

/// Compute the normalized subspace-polynomial evaluation table: row `i` is
/// `[Ŵ_i(β_i), Ŵ_i(β_{i+1}), …, Ŵ_i(β_{ℓ-1})]`.
fn generate_evals_from_subspace(basis: &[F128]) -> (evals: Vec<Vec<F128>>)
    ensures
        rows_view(evals@) == evals_of(basis@),
{
    let l: usize = basis.len();
    // The unnormalized row of the current index: raw[k] = W_i(β_{i+k}).
    let mut raw: Vec<F128> = vstd::slice::slice_to_vec(basis);
    let mut evals: Vec<Vec<F128>> = Vec::with_capacity(l);
    let mut i: usize = 0;
    while i < l
        invariant
            l == basis@.len(),
            i <= l,
            evals@.len() == i,
            i < l ==> raw@.len() == l - i,
            i < l ==> forall|k: int|
                0 <= k < raw@.len() ==> #[trigger] raw@[k] == subspace_poly(
                    basis@,
                    i as nat,
                    basis@[i + k],
                ),
            forall|a: int| 0 <= a < i ==> (#[trigger] evals@[a])@ == evals_of(basis@)[a],
        decreases l - i,
    {
        let inv = raw[0].inv();
        let mut row: Vec<F128> = Vec::with_capacity(raw.len());
        let mut k: usize = 0;
        while k < raw.len()
            invariant
                l == basis@.len(),
                i < l,
                k <= raw@.len(),
                raw@.len() == l - i,
                row@.len() == k,
                inv == subspace_poly(basis@, i as nat, basis@[i as int]).inverse(),
                forall|j: int|
                    0 <= j < raw@.len() ==> #[trigger] raw@[j] == subspace_poly(
                        basis@,
                        i as nat,
                        basis@[i + j],
                    ),
                forall|j: int|
                    0 <= j < k ==> #[trigger] row@[j] == normalized_poly(
                        basis@,
                        i as nat,
                        basis@[i + j],
                    ),
            decreases raw@.len() - k,
        {
            row.push(raw[k] * inv);
            k = k + 1;
        }
        assert(row@ =~= evals_of(basis@)[i as int]);
        // W_{i+1}(β_{i+1+k}) = W_i(β_{i+1+k}) · (W_i(β_{i+1+k}) + W_i(β_i)).
        let mut next: Vec<F128> = Vec::with_capacity(raw.len());
        let mut k2: usize = 1;
        while k2 < raw.len()
            invariant
                l == basis@.len(),
                i < l,
                1 <= k2 <= raw@.len(),
                raw@.len() == l - i,
                next@.len() == k2 - 1,
                forall|j: int|
                    0 <= j < raw@.len() ==> #[trigger] raw@[j] == subspace_poly(
                        basis@,
                        i as nat,
                        basis@[i + j],
                    ),
                forall|j: int|
                    0 <= j < k2 - 1 ==> #[trigger] next@[j] == subspace_poly(
                        basis@,
                        (i + 1) as nat,
                        basis@[i + 1 + j],
                    ),
            decreases raw@.len() - k2,
        {
            next.push(raw[k2] * (raw[k2] + raw[0]));
            k2 = k2 + 1;
        }
        evals.push(row);
        raw = next;
        i = i + 1;
    }
    assert(rows_view(evals@) =~= evals_of(basis@));
    evals
}

/// Compute `Σ_j bit_j(idx) · basis[j]` — the `idx`-th element of the F_2-span
/// of `basis`.
#[inline]
fn span_get(basis: &[F128], idx: usize) -> (acc: F128)
    requires
        basis@.len() <= usize::BITS,
    ensures
        acc == span_element(basis@, idx as nat),
{
    let mut acc = F128::zero();
    let mut j: usize = 0;
    while j < basis.len()
        invariant
            j <= basis@.len() <= usize::BITS,
            acc == span_partial(basis@, idx as nat, j as nat),
        decreases basis@.len() - j,
    {
        if bit_is_set(idx, j) {
            acc = acc + basis[j];
        }
        j = j + 1;
    }
    acc
}

/// Additive NTT over F_{2^128}.
#[derive(Debug)]
pub struct AdditiveNttF128 {
    /// `evals[i]` of length `ℓ − i`, the normalized subspace polynomial values.
    evals: Vec<Vec<F128>>,
}

impl Clone for AdditiveNttF128 {
    fn clone(&self) -> (r: AdditiveNttF128)
        ensures
            r.table() == self.table(),
            self.wf() ==> r.wf(),
    {
        let mut evals: Vec<Vec<F128>> = Vec::with_capacity(self.evals.len());
        let mut i: usize = 0;
        while i < self.evals.len()
            invariant
                i <= self.evals@.len(),
                evals@.len() == i,
                forall|a: int| 0 <= a < i ==> (#[trigger] evals@[a])@ == self.evals@[a]@,
            decreases self.evals@.len() - i,
        {
            let row: Vec<F128> = vstd::slice::slice_to_vec(&self.evals[i]);
            evals.push(row);
            i = i + 1;
        }
        let r = AdditiveNttF128 { evals };
        assert(r.table() =~= self.table());
        r
    }
}

/// The half-block length of layer `l` of a transform of `2^log_d` positions
/// with `lanes` interleaved lanes.
pub open spec fn half_block(log_d: nat, lanes: nat, l: nat) -> int {
    (pow2((log_d - l - 1) as nat) * lanes) as int
}

/// Whether a buffer holds `2^log_d` positions of `lanes` lanes, for some `log_d`
/// up to `limit`.
pub open spec fn lanes_fit(len: nat, lanes: nat, limit: nat) -> bool {
    &&& lanes > 0
    &&& len % lanes == 0
    &&& power_of_two(len / lanes)
    &&& log2(len / lanes) <= limit
}

impl AdditiveNttF128 {
    /// The normalized subspace polynomial values.
    pub closed spec fn table(&self) -> Seq<Seq<F128>> {
        rows_view(self.evals@)
    }

    /// The table is triangular. That of a single point is empty.
    pub open spec fn wf(&self) -> bool {
        forall|i: int|
            0 <= i < self.table().len() ==> (#[trigger] self.table()[i]).len()
                == self.table().len() - i
    }

    /// The log of the domain size, `ℓ`.
    pub open spec fn dim(&self) -> nat {
        self.table().len()
    }

    /// The twiddle of block `b` of layer `l`: the `b`-th element of the span of
    /// `Ŵ_{ℓ-l-1}(β_{ℓ-l}), …, Ŵ_{ℓ-l-1}(β_{ℓ-1})`.
    pub open spec fn twiddle_at(&self, l: nat, b: nat) -> F128 {
        let row = self.table()[self.dim() - l - 1];
        span_element(row.subrange(1, row.len() as int), b)
    }

    /// The twiddles of layer `l`.
    pub open spec fn layer_twiddles(&self, l: nat) -> spec_fn(int) -> F128 {
        |b: int| self.twiddle_at(l, b as nat)
    }

    /// Layer `l` of the forward transform.
    pub open spec fn layer(&self, s: Seq<F128>, log_d: nat, lanes: nat, l: nat) -> Seq<F128> {
        layer_map(s, half_block(log_d, lanes, l), self.layer_twiddles(l))
    }

    /// The layers `from..to` of the forward transform, one after the other.
    pub open spec fn forward_layers(
        &self,
        s: Seq<F128>,
        log_d: nat,
        lanes: nat,
        from: nat,
        to: nat,
    ) -> Seq<F128>
        decreases to,
    {
        if to <= from {
            s
        } else {
            self.layer(
                self.forward_layers(s, log_d, lanes, from, (to - 1) as nat),
                log_d,
                lanes,
                (to - 1) as nat,
            )
        }
    }

    /// The forward transform of interleaved lanes, from layer `from` on.
    pub open spec fn forward_from(&self, s: Seq<F128>, lanes: nat, from: nat) -> Seq<F128> {
        let log_d = log2(s.len() / lanes);
        self.forward_layers(s, log_d, lanes, from, log_d)
    }

    /// The forward transform.
    pub open spec fn forward(&self, s: Seq<F128>) -> Seq<F128> {
        self.forward_from(s, 1, 0)
    }

    /// The inverse layers `to - 1, …, 0`, in that order.
    pub open spec fn inverse_layers(&self, s: Seq<F128>, log_d: nat, to: nat) -> Seq<F128>
        decreases to,
    {
        if to == 0 {
            s
        } else {
            self.inverse_layers(
                inverse_layer_map(
                    s,
                    half_block(log_d, 1, (to - 1) as nat),
                    self.layer_twiddles((to - 1) as nat),
                ),
                log_d,
                (to - 1) as nat,
            )
        }
    }

    /// The inverse transform.
    pub open spec fn inverse(&self, s: Seq<F128>) -> Seq<F128> {
        self.inverse_layers(s, log2(s.len()), log2(s.len()))
    }

    /// Construct an NTT from an explicit F_2-basis.
    pub fn new(basis: &[F128]) -> (r: AdditiveNttF128)
        ensures
            r.wf(),
            r.table() == evals_of(basis@),
            r.dim() == basis@.len(),
    {
        AdditiveNttF128 { evals: generate_evals_from_subspace(basis) }
    }

    /// Standard NTT with basis `{1, x, x², …, x^(dim-1)}`. Requires `dim ≤ 64`
    /// (the low 64 bits of F_{2^128} hold these basis vectors).
    pub fn standard(dim: usize) -> (r: AdditiveNttF128)
        requires
            dim <= 64,
        ensures
            r.wf(),
            r.dim() == dim,
            r.table() == evals_of(standard_basis(dim as nat)),
    {
        let mut basis: Vec<F128> = Vec::with_capacity(dim);
        let mut i: usize = 0;
        while i < dim
            invariant
                i <= dim <= 64,
                basis@.len() == i,
                forall|j: int| 0 <= j < i ==> #[trigger] basis@[j] == standard_basis(dim as nat)[j],
            decreases dim - i,
        {
            basis.push(F128::new(1u64 << (i as u64), 0));
            i = i + 1;
        }
        assert(basis@ =~= standard_basis(dim as nat));
        AdditiveNttF128::new(&basis)
    }

    pub fn log_domain_size(&self) -> (r: usize)
        ensures
            r == self.dim(),
    {
        self.evals.len()
    }

    /// Twiddle at `(layer, block)` for the forward NTT and FRI fold.
    ///
    /// At layer `l` ∈ `[0, ℓ)`, block index `b` ∈ `[0, 2^l)`:
    /// `twiddle(l, b) = Σ_j bit_j(b) · Ŵ_{ℓ-l-1}(β_{ℓ-l+j})`
    pub fn twiddle(&self, layer: usize, block: usize) -> (t: F128)
        requires
            self.wf(),
            layer < self.dim(),
            layer <= usize::BITS,
        ensures
            t == self.twiddle_at(layer as nat, block as nat),
    {
        let v: &Vec<F128> = &self.evals[self.evals.len() - layer - 1];
        proof {
            assert(self.table()[self.dim() - layer - 1] == v@);
        }
        span_get(slice_subrange(v, 1, v.len()), block)
    }
}

/// The basis `{1, x, …, x^(dim-1)}`.
pub open spec fn standard_basis(dim: nat) -> Seq<F128> {
    Seq::new(dim, |i: int| F128 { lo: 1u64 << (i as u64), hi: 0 })
}

/// The blocks of a layer fill the buffer.
pub proof fn lemma_layer_shape(log_d: nat, lanes: nat, l: nat)
    requires
        l < log_d,
        lanes > 0,
    ensures
        half_block(log_d, lanes, l) > 0,
        pow2(l) * (2 * half_block(log_d, lanes, l)) == pow2(log_d) * lanes,
        ((pow2(log_d) * lanes) as int) % (2 * half_block(log_d, lanes, l)) == 0,
        2 * pow2((log_d - l - 1) as nat) == pow2((log_d - l) as nat),
{
    let e = (log_d - l - 1) as nat;
    lemma_pow2_pos(e);
    lemma_pow2_pos(l);
    lemma_pow2_adds(l, (log_d - l) as nat);
    lemma_pow2_unfold((log_d - l) as nat);
    let h = half_block(log_d, lanes, l);
    let (a, b) = (pow2(l) as int, pow2(e) as int);
    assert(h > 0 && a * (2 * h) == (a * (2 * b)) * lanes) by (nonlinear_arith)
        requires
            h == b * lanes,
            b > 0,
            lanes > 0,
    ;
    vstd::arithmetic::div_mod::lemma_mod_multiples_basic(a, 2 * h);
}

proof fn lemma_forward_layers_len(ntt: &AdditiveNttF128, s: Seq<F128>, log_d: nat, lanes: nat, from: nat, to: nat)
    ensures
        ntt.forward_layers(s, log_d, lanes, from, to).len() == s.len(),
    decreases to,
{
    if to > from {
        lemma_forward_layers_len(ntt, s, log_d, lanes, from, (to - 1) as nat);
    }
}

/// Butterfly the block of `data` that begins at `start` with a shared twiddle:
/// entry `start + k` is paired with entry `start + h + k` for `k < h`.
#[inline]
pub fn butterfly_interleaved_block(data: &mut [F128], start: usize, h: usize, twiddle: F128)
    requires
        start + 2 * h <= old(data)@.len(),
    ensures
        final(data)@ == block_step(old(data)@, start as int, h as int, twiddle),
{
    let n: usize = data.len();
    let ghost s = data@;
    let by_twiddle = Window::new(twiddle, h);
    let mut k: usize = 0;
    while k < h
        invariant
            k <= h,
            n == data@.len(),
            start + 2 * h <= n,
            data@.len() == s.len(),
            by_twiddle.wf(),
            by_twiddle.spec_factor() == twiddle,
            forall|p: int|
                0 <= p < s.len() ==> #[trigger] data@[p] == (if start <= p < start + k || start + h
                    <= p < start + h + k {
                    block_step(s, start as int, h as int, twiddle)[p]
                } else {
                    s[p]
                }),
        decreases h - k,
    {
        let v = data[start + h + k];
        let new_u = data[start + k] + by_twiddle.times(v);
        data[start + k] = new_u;
        data[start + h + k] = v + new_u;
        k = k + 1;
    }
    assert(data@ =~= block_step(s, start as int, h as int, twiddle));
}

/// The inverse butterflies of the block of `data` that begins at `start`.
#[inline]
fn inverse_butterfly_block(data: &mut [F128], start: usize, h: usize, twiddle: F128)
    requires
        start + 2 * h <= old(data)@.len(),
    ensures
        final(data)@ == inverse_block_step(old(data)@, start as int, h as int, twiddle),
{
    let n: usize = data.len();
    let ghost s = data@;
    let mut k: usize = 0;
    while k < h
        invariant
            k <= h,
            n == data@.len(),
            start + 2 * h <= n,
            data@.len() == s.len(),
            forall|p: int|
                0 <= p < s.len() ==> #[trigger] data@[p] == (if start <= p < start + k || start + h
                    <= p < start + h + k {
                    inverse_block_step(s, start as int, h as int, twiddle)[p]
                } else {
                    s[p]
                }),
        decreases h - k,
    {
        let u = data[start + k];
        let new_v = data[start + h + k] + u;
        data[start + h + k] = new_v;
        data[start + k] = u + new_v * twiddle;
        k = k + 1;
    }
    assert(data@ =~= inverse_block_step(s, start as int, h as int, twiddle));
}

impl AdditiveNttF128 {
    /// Apply layer `layer` to the whole buffer.
    pub(crate) fn apply_layer(&self, data: &mut [F128], lanes: usize, log_d: usize, layer: usize)
        requires
            self.wf(),
            lanes > 0,
            layer < log_d <= self.dim(),
            old(data)@.len() == pow2(log_d as nat) * lanes,
        ensures
            final(data)@ == self.layer(old(data)@, log_d as nat, lanes as nat, layer as nat),
    {
        let ghost s = data@;
        let n: usize = data.len();
        let ghost h0 = half_block(log_d as nat, lanes as nat, layer as nat);
        let ghost tw = self.layer_twiddles(layer as nat);
        let ghost f = layer_map(s, h0, tw);
        proof {
            lemma_layer_shape(log_d as nat, lanes as nat, layer as nat);
            lemma_layer_bounds(log_d as nat, lanes as nat, layer as nat, n as nat);
        }
        let num_blocks: usize = pow2_usize(layer);
        let h: usize = pow2_usize(log_d - layer - 1) * lanes;
        let mut block: usize = 0;
        assert(spliced(f, s, 0 * (2 * h0)) =~= s);
        while block < num_blocks
            invariant
                self.wf(),
                block <= num_blocks,
                layer < log_d <= self.dim(),
                log_d < usize::BITS,
                h == h0,
                h > 0,
                s.len() == n,
                n == num_blocks * (2 * h),
                num_blocks == pow2(layer as nat),
                tw == self.layer_twiddles(layer as nat),
                f == layer_map(s, h0, tw),
                data@ == spliced(f, s, block * (2 * h0)),
            decreases num_blocks - block,
        {
            proof {
                assert((block + 1) * (2 * h) <= num_blocks * (2 * h)) by (nonlinear_arith)
                    requires
                        block < num_blocks,
                ;
                assert((block + 1) * (2 * h) == block * (2 * h) + 2 * h) by (nonlinear_arith);
                lemma_layer_progress(s, h0, tw, block as int);
                assert(tw(block as int) == self.twiddle_at(layer as nat, block as nat));
            }
            let t = self.twiddle(layer, block);
            butterfly_interleaved_block(data, block * (2 * h), h, t);
            block = block + 1;
        }
        assert(data@ =~= f);
    }

    /// Scalar reference for the interleaved forward NTT.
    pub fn forward_transform_interleaved_scalar(&self, data: &mut [F128], num_ntts: usize)
        requires
            self.wf(),
            lanes_fit(old(data)@.len(), num_ntts as nat, self.dim()),
        ensures
            final(data)@ == self.forward_from(old(data)@, num_ntts as nat, 0),
    {
        self.forward_transform_interleaved_scalar_from_layer(data, num_ntts, 0);
    }

    /// Scalar interleaved forward NTT from `start_layer`, assuming the layers
    /// before it have already been applied to `data`.
    pub fn forward_transform_interleaved_scalar_from_layer(
        &self,
        data: &mut [F128],
        num_ntts: usize,
        start_layer: usize,
    )
        requires
            self.wf(),
            lanes_fit(old(data)@.len(), num_ntts as nat, self.dim()),
        ensures
            final(data)@ == self.forward_from(old(data)@, num_ntts as nat, start_layer as nat),
    {
        let ghost s = data@;
        let n_total: usize = data.len();
        let log_d: usize = log2_pow2(n_total / num_ntts);
        proof {
            lemma_lanes_len(n_total as nat, num_ntts as nat);
        }
        let mut layer: usize = start_layer;
        while layer < log_d
            invariant
                self.wf(),
                num_ntts > 0,
                log_d <= self.dim(),
                start_layer <= layer,
                layer <= log_d || layer == start_layer,
                data@.len() == pow2(log_d as nat) * num_ntts,
                data@ == self.forward_layers(
                    s,
                    log_d as nat,
                    num_ntts as nat,
                    start_layer as nat,
                    layer as nat,
                ),
            decreases log_d - layer,
        {
            self.apply_layer(data, num_ntts, log_d, layer);
            layer = layer + 1;
        }
        proof {
            if start_layer > log_d {
                assert(self.forward_layers(
                    s,
                    log_d as nat,
                    num_ntts as nat,
                    start_layer as nat,
                    log_d as nat,
                ) == s);
            }
        }
    }

    /// Scalar forward transform: [`Self::forward_transform`] without lanes.
    pub fn forward_transform_scalar(&self, data: &mut [F128])
        requires
            self.wf(),
            power_of_two(old(data)@.len()),
            log2(old(data)@.len()) <= self.dim(),
        ensures
            final(data)@ == self.forward(old(data)@),
    {
        proof {
            lemma_one_lane(data@.len());
        }
        self.forward_transform_interleaved_scalar_from_layer(data, 1, 0);
    }

    /// Inverse additive NTT in place. Exact inverse of `forward_transform`.
    pub fn inverse_transform(&self, data: &mut [F128])
        requires
            self.wf(),
            power_of_two(old(data)@.len()),
            log2(old(data)@.len()) <= self.dim(),
        ensures
            final(data)@ == self.inverse(old(data)@),
    {
        let ghost s0 = data@;
        let n: usize = data.len();
        let log_d: usize = log2_pow2(n);
        let mut to: usize = log_d;
        while to > 0
            invariant
                self.wf(),
                to <= log_d <= self.dim(),
                log_d < usize::BITS,
                n == data@.len(),
                n == pow2(log_d as nat),
                self.inverse_layers(data@, log_d as nat, to as nat) == self.inverse_layers(
                    s0,
                    log_d as nat,
                    log_d as nat,
                ),
            decreases to,
        {
            let layer: usize = to - 1;
            let ghost s = data@;
            let ghost h0 = half_block(log_d as nat, 1, layer as nat);
            let ghost tw = self.layer_twiddles(layer as nat);
            let ghost f = inverse_layer_map(s, h0, tw);
            proof {
                lemma_layer_shape(log_d as nat, 1, layer as nat);
                lemma_layer_bounds(log_d as nat, 1, layer as nat, n as nat);
            }
            let num_blocks: usize = pow2_usize(layer);
            let h: usize = pow2_usize(log_d - layer - 1);
            let mut block: usize = 0;
            assert(spliced(f, s, 0 * (2 * h0)) =~= s);
            while block < num_blocks
                invariant
                    self.wf(),
                    block <= num_blocks,
                    layer < log_d <= self.dim(),
                    log_d < usize::BITS,
                    h == h0,
                    h > 0,
                    s.len() == n,
                    n == num_blocks * (2 * h),
                    num_blocks == pow2(layer as nat),
                    tw == self.layer_twiddles(layer as nat),
                    f == inverse_layer_map(s, h0, tw),
                    data@ == spliced(f, s, block * (2 * h0)),
                decreases num_blocks - block,
            {
                proof {
                    assert((block + 1) * (2 * h) <= num_blocks * (2 * h)) by (nonlinear_arith)
                        requires
                            block < num_blocks,
                    ;
                    assert((block + 1) * (2 * h) == block * (2 * h) + 2 * h) by (nonlinear_arith);
                    lemma_layer_progress(s, h0, tw, block as int);
                    assert(tw(block as int) == self.twiddle_at(layer as nat, block as nat));
                }
                let t = self.twiddle(layer, block);
                inverse_butterfly_block(data, block * (2 * h), h, t);
                block = block + 1;
            }
            assert(data@ =~= f);
            to = layer;
        }
    }
}

pub(crate) proof fn lemma_layer_bounds(log_d: nat, lanes: nat, l: nat, len: nat)
    requires
        l < log_d,
        lanes > 0,
        len == pow2(log_d) * lanes,
        len <= usize::MAX,
    ensures
        pow2(l) <= usize::MAX,
        pow2((log_d - l - 1) as nat) <= usize::MAX,
        half_block(log_d, lanes, l) <= usize::MAX,
        2 * half_block(log_d, lanes, l) <= usize::MAX,
        log_d < usize::BITS,
{
    lemma_layer_shape(log_d, lanes, l);
    lemma_pow2_pos(l);
    lemma_pow2_pos(log_d);
    let h = half_block(log_d, lanes, l);
    let e = pow2((log_d - l - 1) as nat) as int;
    let a = pow2(l) as int;
    assert(a <= len && 2 * h <= len && e <= h) by (nonlinear_arith)
        requires
            a * (2 * h) == len,
            a >= 1,
            h >= 1,
            h == e * lanes,
            e >= 0,
            lanes >= 1,
    ;
    assert(pow2(log_d) <= len) by (nonlinear_arith)
        requires
            len == pow2(log_d) * lanes,
            lanes >= 1,
    ;
    lemma_pow2_fits(log_d);
}

proof fn lemma_lanes_len(len: nat, lanes: nat)
    requires
        lanes > 0,
        len % lanes == 0,
        power_of_two(len / lanes),
    ensures
        len == pow2(log2(len / lanes)) * lanes,
{
    lemma_block_of(len as int, lanes as int);
}

pub(crate) proof fn lemma_one_lane(len: nat)
    ensures
        len % 1 == 0,
        len / 1 == len,
{
}


/// Log of the number of bytes that a cache-resident sub-transform should take.
const TARGET_SUBGROUP_LOG_BYTES: usize = 21;

/// Below this size a transform is not cut up for threads.
const PARALLEL_FLOOR_LOG_D: usize = 12;

/// The least log size of a sub-transform made for the sake of threads.
const MIN_SUB_LOG: usize = 8;

/// Fused 2-layer butterfly: combines layer L (twiddle `t_outer`, shared by
/// the whole outer block) with layer L+1 (twiddles `t_inner_a` for the top
/// half, `t_inner_b` for the bottom half). Reads each entry of the outer
/// block once and writes it once.
///
/// The block begins at `start` and has four quarters of `q` entries. For each
/// `k < q`, four entries participate; layer L butterflies `(a,c)` and `(b,d)`,
/// layer L+1 then butterflies `(a,b)` and `(c,d)`.
#[inline]
pub fn butterfly_interleaved_fused_2layer(
    data: &mut [F128],
    start: usize,
    q: usize,
    t_outer: F128,
    t_inner_a: F128,
    t_inner_b: F128,
)
    requires
        start + 4 * q <= old(data)@.len(),
    ensures
        final(data)@ == block_step(
            block_step(
                block_step(old(data)@, start as int, 2 * q, t_outer),
                start as int,
                q as int,
                t_inner_a,
            ),
            start + 2 * q,
            q as int,
            t_inner_b,
        ),
{
    let n: usize = data.len();
    let ghost s = data@;
    let ghost x1 = block_step(s, start as int, 2 * q, t_outer);
    let ghost x2 = block_step(x1, start as int, q as int, t_inner_a);
    let ghost x3 = block_step(x2, start + 2 * q, q as int, t_inner_b);
    let by_outer = Window::new(t_outer, q);
    let by_inner_a = Window::new(t_inner_a, q);
    let by_inner_b = Window::new(t_inner_b, q);
    let mut k: usize = 0;
    while k < q
        invariant
            k <= q,
            n == data@.len(),
            start + 4 * q <= n,
            data@.len() == s.len(),
            by_outer.wf() && by_outer.spec_factor() == t_outer,
            by_inner_a.wf() && by_inner_a.spec_factor() == t_inner_a,
            by_inner_b.wf() && by_inner_b.spec_factor() == t_inner_b,
            x1 == block_step(s, start as int, 2 * q, t_outer),
            x2 == block_step(x1, start as int, q as int, t_inner_a),
            x3 == block_step(x2, start + 2 * q, q as int, t_inner_b),
            forall|p: int|
                0 <= p < s.len() ==> #[trigger] data@[p] == (if start <= p < start + k || start + q
                    <= p < start + q + k || start + 2 * q <= p < start + 2 * q + k || start + 3 * q
                    <= p < start + 3 * q + k || p < start || p >= start + 4 * q {
                    x3[p]
                } else {
                    s[p]
                }),
        decreases q - k,
    {
        let a = data[start + k];
        let b = data[start + q + k];
        let c = data[start + 2 * q + k];
        let d = data[start + 3 * q + k];
        // Layer L.
        let a1 = a + by_outer.times(c);
        let c1 = c + a1;
        let b1 = b + by_outer.times(d);
        let d1 = d + b1;
        // Layer L+1.
        let a2 = a1 + by_inner_a.times(b1);
        let b2 = b1 + a2;
        let c2 = c1 + by_inner_b.times(d1);
        let d2 = d1 + c2;
        proof {
            let (pa, pb, pc, pd) = (start + k, start + q + k, start + 2 * q + k, start + 3 * q + k);
            assert(x1[pa] == a1 && x1[pb] == b1 && x1[pc] == c1 && x1[pd] == d1);
            assert(x2[pa] == a2 && x2[pb] == b2 && x2[pc] == c1 && x2[pd] == d1);
            assert(x3[pa] == a2 && x3[pb] == b2 && x3[pc] == c2 && x3[pd] == d2);
        }
        data[start + k] = a2;
        data[start + q + k] = b2;
        data[start + 2 * q + k] = c2;
        data[start + 3 * q + k] = d2;
        k = k + 1;
    }
    assert(data@ =~= x3);
}

impl AdditiveNttF128 {
    /// Forward additive NTT in place. `data.len()` must be `2^log_d` for some
    /// `log_d ≤ log_domain_size()`. Layer `l ∈ [0, log_d)` is processed in
    /// order (neighbors-last: top layer first).
    pub fn forward_transform(&self, data: &mut [F128])
        requires
            self.wf(),
            power_of_two(old(data)@.len()),
            log2(old(data)@.len()) <= self.dim(),
        ensures
            final(data)@ == self.forward(old(data)@),
    {
        self.forward_transform_scalar(data);
    }

    /// Interleaved forward NTT: process `num_ntts` independent NTTs in
    /// position-major layout, `data[pos * num_ntts + lane]`. Each lane is an
    /// independent NTT instance over the same domain.
    ///
    /// `num_ntts` must be a positive power of 2. `data.len()` must equal
    /// `(1 << log_d) * num_ntts` for some `log_d ≤ log_domain_size()`.
    pub fn forward_transform_interleaved(&self, data: &mut [F128], num_ntts: usize)
        requires
            self.wf(),
            power_of_two(num_ntts as nat),
            lanes_fit(old(data)@.len(), num_ntts as nat, self.dim()),
        ensures
            final(data)@ == self.forward_from(old(data)@, num_ntts as nat, 0),
    {
        self.forward_transform_interleaved_from_layer(data, num_ntts, 0);
    }

    /// Forward interleaved NTT starting at `start_layer`, assuming the first
    /// `start_layer` layers have already been applied to `data`.
    pub fn forward_transform_interleaved_from_layer(
        &self,
        data: &mut [F128],
        num_ntts: usize,
        start_layer: usize,
    )
        requires
            self.wf(),
            power_of_two(num_ntts as nat),
            lanes_fit(old(data)@.len(), num_ntts as nat, self.dim()),
            start_layer <= log2(old(data)@.len() / num_ntts as nat),
        ensures
            final(data)@ == self.forward_from(old(data)@, num_ntts as nat, start_layer as nat),
    {
        self.forward_transform_interleaved_scalar_from_layer(data, num_ntts, start_layer);
    }

    /// Cache-blocked interleaved forward NTT: top layers sweep the full buffer,
    /// two at a time; deep layers process each sub-transform on its own.
    pub fn forward_transform_interleaved_parallel(&self, data: &mut [F128], num_ntts: usize)
        requires
            self.wf(),
            power_of_two(num_ntts as nat),
            lanes_fit(old(data)@.len(), num_ntts as nat, self.dim()),
        ensures
            final(data)@ == self.forward_from(old(data)@, num_ntts as nat, 0),
    {
        self.forward_transform_interleaved_parallel_from_layer(data, num_ntts, 0);
    }

    /// Cache-blocked interleaved forward NTT from `start_layer`.
    pub fn forward_transform_interleaved_parallel_from_layer(
        &self,
        data: &mut [F128],
        num_ntts: usize,
        start_layer: usize,
    )
        requires
            self.wf(),
            power_of_two(num_ntts as nat),
            lanes_fit(old(data)@.len(), num_ntts as nat, self.dim()),
        ensures
            final(data)@ == self.forward_from(old(data)@, num_ntts as nat, start_layer as nat),
    {
        let n_total: usize = data.len();
        let log_d: usize = log2_pow2(n_total / num_ntts);
        let n_top: usize = top_layer_count(log_d, log2_pow2(num_ntts), current_num_threads());
        if n_top == 0 || log_d < 8 {
            self.forward_transform_interleaved_scalar_from_layer(data, num_ntts, start_layer);
            return ;
        }
        self.forward_transform_cut(data, num_ntts, start_layer, n_top);
    }

    /// The interleaved forward NTT from `start_layer`, cut after `n_top` layers:
    /// the layers before the cut sweep the whole buffer, the layers after it run
    /// sub-transform by sub-transform.
    pub fn forward_transform_cut(
        &self,
        data: &mut [F128],
        num_ntts: usize,
        start_layer: usize,
        n_top: usize,
    )
        requires
            self.wf(),
            lanes_fit(old(data)@.len(), num_ntts as nat, self.dim()),
            n_top <= log2(old(data)@.len() / num_ntts as nat),
        ensures
            final(data)@ == self.forward_from(old(data)@, num_ntts as nat, start_layer as nat),
    {
        let ghost s = data@;
        let n_total: usize = data.len();
        let log_d: usize = log2_pow2(n_total / num_ntts);
        proof {
            lemma_lanes_len(n_total as nat, num_ntts as nat);
        }
        let first: usize = if start_layer < n_top {
            start_layer
        } else {
            n_top
        };
        self.top_layers(data, num_ntts, log_d, first, n_top);
        let begin: usize = if n_top < start_layer {
            start_layer
        } else {
            n_top
        };
        proof {
            lemma_forward_layers_len(
                self,
                s,
                log_d as nat,
                num_ntts as nat,
                first as nat,
                n_top as nat,
            );
            if start_layer >= n_top {
                assert(data@ == s);
            }
        }
        let ghost mid = data@;
        if begin < log_d {
            self.deep_layers(data, num_ntts, log_d, n_top, begin);
        }
        proof {
            if start_layer < n_top {
                lemma_forward_layers_compose(
                    self,
                    s,
                    log_d as nat,
                    num_ntts as nat,
                    start_layer as nat,
                    n_top as nat,
                    log_d as nat,
                );
            }
        }
    }

    /// Layers `first..n_top` over the whole buffer, two at a time.
    fn top_layers(
        &self,
        data: &mut [F128],
        lanes: usize,
        log_d: usize,
        first: usize,
        n_top: usize,
    )
        requires
            self.wf(),
            lanes > 0,
            first <= n_top <= log_d <= self.dim(),
            old(data)@.len() == pow2(log_d as nat) * lanes,
        ensures
            final(data)@ == self.forward_layers(
                old(data)@,
                log_d as nat,
                lanes as nat,
                first as nat,
                n_top as nat,
            ),
    {
        let ghost s = data@;
        let mut layer: usize = first;
        while layer < n_top
            invariant
                self.wf(),
                lanes > 0,
                first <= layer <= n_top <= log_d <= self.dim(),
                data@.len() == pow2(log_d as nat) * lanes,
                data@ == self.forward_layers(
                    s,
                    log_d as nat,
                    lanes as nat,
                    first as nat,
                    layer as nat,
                ),
            decreases n_top - layer,
        {
            if layer + 1 < n_top {
                self.apply_two_layers(data, lanes, log_d, layer);
                proof {
                    reveal_with_fuel(AdditiveNttF128::forward_layers, 3);
                }
                layer = layer + 2;
            } else {
                self.apply_layer(data, lanes, log_d, layer);
                layer = layer + 1;
            }
        }
    }

    /// Apply layers `layer` and `layer + 1` to the whole buffer in one sweep.
    fn apply_two_layers(&self, data: &mut [F128], lanes: usize, log_d: usize, layer: usize)
        requires
            self.wf(),
            lanes > 0,
            layer + 1 < log_d <= self.dim(),
            old(data)@.len() == pow2(log_d as nat) * lanes,
        ensures
            final(data)@ == self.layer(
                self.layer(old(data)@, log_d as nat, lanes as nat, layer as nat),
                log_d as nat,
                lanes as nat,
                (layer + 1) as nat,
            ),
    {
        let ghost s = data@;
        let n: usize = data.len();
        let ghost tw1 = self.layer_twiddles(layer as nat);
        let ghost tw2 = self.layer_twiddles((layer + 1) as nat);
        let ghost q0 = half_block(log_d as nat, lanes as nat, (layer + 1) as nat);
        let ghost f = layer_map(layer_map(s, 2 * q0, tw1), q0, tw2);
        proof {
            lemma_layer_shape(log_d as nat, lanes as nat, layer as nat);
            lemma_layer_shape(log_d as nat, lanes as nat, (layer + 1) as nat);
            lemma_layer_bounds(log_d as nat, lanes as nat, layer as nat, n as nat);
            lemma_layer_bounds(log_d as nat, lanes as nat, (layer + 1) as nat, n as nat);
            let e = pow2((log_d - layer - 2) as nat) as int;
            lemma_pow2_unfold((log_d - layer - 1) as nat);
            assert(half_block(log_d as nat, lanes as nat, layer as nat) == 2 * q0)
                by (nonlinear_arith)
                requires
                    half_block(log_d as nat, lanes as nat, layer as nat) == (2 * e) * lanes,
                    q0 == e * lanes,
            ;
        }
        let num_blocks: usize = pow2_usize(layer);
        let q: usize = pow2_usize(log_d - layer - 2) * lanes;
        let mut block: usize = 0;
        assert(spliced(f, s, 0 * (4 * q0)) =~= s);
        while block < num_blocks
            invariant
                self.wf(),
                block <= num_blocks,
                layer + 1 < log_d <= self.dim(),
                log_d < usize::BITS,
                q == q0,
                q > 0,
                s.len() == n,
                n == num_blocks * (4 * q),
                num_blocks == pow2(layer as nat),
                tw1 == self.layer_twiddles(layer as nat),
                tw2 == self.layer_twiddles((layer + 1) as nat),
                f == layer_map(layer_map(s, 2 * q0, tw1), q0, tw2),
                data@ == spliced(f, s, block * (4 * q0)),
            decreases num_blocks - block,
        {
            proof {
                assert((block + 1) * (4 * q) <= num_blocks * (4 * q)) by (nonlinear_arith)
                    requires
                        block < num_blocks,
                ;
                assert((block + 1) * (4 * q) == block * (4 * q) + 4 * q) by (nonlinear_arith);
                lemma_two_layer_progress(s, q0, tw1, tw2, block as int);
                assert(num_blocks <= n) by (nonlinear_arith)
                    requires
                        n == num_blocks * (4 * q),
                        q > 0,
                ;
                assert(2 * num_blocks <= n) by (nonlinear_arith)
                    requires
                        n == num_blocks * (4 * q),
                        q > 0,
                ;
                assert(tw1(block as int) == self.twiddle_at(layer as nat, block as nat));
                assert(tw2(2 * block) == self.twiddle_at((layer + 1) as nat, (2 * block) as nat));
                assert(tw2(2 * block + 1) == self.twiddle_at(
                    (layer + 1) as nat,
                    (2 * block + 1) as nat,
                ));
            }
            let t_outer = self.twiddle(layer, block);
            let t_inner_a = self.twiddle(layer + 1, 2 * block);
            let t_inner_b = self.twiddle(layer + 1, 2 * block + 1);
            butterfly_interleaved_fused_2layer(
                data,
                block * (4 * q),
                q,
                t_outer,
                t_inner_a,
                t_inner_b,
            );
            block = block + 1;
        }
        assert(data@ =~= f);
    }

    /// Layers `begin..log_d`, for one after the other of the `2^n_top`
    /// sub-transforms that these layers do not mix.
    fn deep_layers(
        &self,
        data: &mut [F128],
        lanes: usize,
        log_d: usize,
        n_top: usize,
        begin: usize,
    )
        requires
            self.wf(),
            lanes > 0,
            n_top <= begin < log_d <= self.dim(),
            old(data)@.len() == pow2(log_d as nat) * lanes,
        ensures
            final(data)@ == self.forward_layers(
                old(data)@,
                log_d as nat,
                lanes as nat,
                begin as nat,
                log_d as nat,
            ),
    {
        let ghost s = data@;
        let n: usize = data.len();
        let ghost f = self.forward_layers(
            s,
            log_d as nat,
            lanes as nat,
            begin as nat,
            log_d as nat,
        );
        proof {
            lemma_forward_layers_len(
                self,
                s,
                log_d as nat,
                lanes as nat,
                begin as nat,
                log_d as nat,
            );
            lemma_layer_shape(log_d as nat, lanes as nat, n_top as nat);
            lemma_layer_bounds(log_d as nat, lanes as nat, n_top as nat, n as nat);
        }
        let num_subs: usize = pow2_usize(n_top);
        let sub: usize = 2 * (pow2_usize(log_d - n_top - 1) * lanes);
        let mut sub_idx: usize = 0;
        assert(patched(s, f, 0, 0 * sub) =~= s);
        while sub_idx < num_subs
            invariant
                self.wf(),
                lanes > 0,
                n_top <= begin < log_d <= self.dim(),
                s.len() == n,
                n == pow2(log_d as nat) * lanes,
                n == num_subs * sub,
                num_subs == pow2(n_top as nat),
                sub == 2 * half_block(log_d as nat, lanes as nat, n_top as nat),
                f == self.forward_layers(
                    s,
                    log_d as nat,
                    lanes as nat,
                    begin as nat,
                    log_d as nat,
                ),
                f.len() == n,
                sub_idx <= num_subs,
                data@ == patched(s, f, 0, sub_idx * sub),
            decreases num_subs - sub_idx,
        {
            proof {
                assert((sub_idx + 1) * sub <= num_subs * sub) by (nonlinear_arith)
                    requires
                        sub_idx < num_subs,
                ;
                assert((sub_idx + 1) * sub == sub_idx * sub + sub) by (nonlinear_arith);
                assert(patched(data@, s, sub_idx * sub, (sub_idx + 1) * sub) =~= data@);
            }
            self.sub_transform(data, lanes, log_d, n_top, begin, sub_idx, sub_idx * sub, Ghost(s));
            assert(data@ =~= patched(s, f, 0, (sub_idx + 1) * sub));
            sub_idx = sub_idx + 1;
        }
        assert(data@ =~= f);
    }

    /// Layers `begin..log_d` of the sub-transform `sub_idx`, which begins at
    /// `sub_start` in `data`. Elsewhere `data` stays as it is. The ghost
    /// argument is the whole buffer before layer `begin`.
    fn sub_transform(
        &self,
        data: &mut [F128],
        lanes: usize,
        log_d: usize,
        n_top: usize,
        begin: usize,
        sub_idx: usize,
        sub_start: usize,
        Ghost(s): Ghost<Seq<F128>>,
    )
        requires
            self.wf(),
            lanes > 0,
            n_top <= begin < log_d <= self.dim(),
            s.len() == pow2(log_d as nat) * lanes,
            old(data)@.len() == s.len(),
            sub_idx < pow2(n_top as nat),
            sub_start == sub_idx * (2 * half_block(log_d as nat, lanes as nat, n_top as nat)),
            patched(
                old(data)@,
                s,
                sub_start as int,
                (sub_idx + 1) * (2 * half_block(log_d as nat, lanes as nat, n_top as nat)),
            ) == old(data)@,
        ensures
            final(data)@ == patched(
                old(data)@,
                self.forward_layers(
                    s,
                    log_d as nat,
                    lanes as nat,
                    begin as nat,
                    log_d as nat,
                ),
                sub_start as int,
                (sub_idx + 1) * (2 * half_block(log_d as nat, lanes as nat, n_top as nat)),
            ),
    {
        let ghost a = data@;
        let n: usize = data.len();
        let ghost size = 2 * half_block(log_d as nat, lanes as nat, n_top as nat);
        let ghost from = sub_start as int;
        let ghost to = (sub_idx + 1) * size;
        proof {
            lemma_layer_shape(log_d as nat, lanes as nat, n_top as nat);
            assert(to <= n) by (nonlinear_arith)
                requires
                    to == (sub_idx + 1) * size,
                    n == pow2(n_top as nat) * size,
                    sub_idx + 1 <= pow2(n_top as nat),
                    size > 0,
            ;
            assert(to == from + size) by (nonlinear_arith)
                requires
                    to == (sub_idx + 1) * size,
                    from == sub_idx * size,
            ;
            assert(self.forward_layers(
                s,
                log_d as nat,
                lanes as nat,
                begin as nat,
                begin as nat,
            ) == s);
        }
        let mut layer: usize = begin;
        while layer < log_d
            invariant
                self.wf(),
                lanes > 0,
                n_top <= begin <= layer <= log_d <= self.dim(),
                begin < log_d,
                s.len() == pow2(log_d as nat) * lanes,
                a.len() == s.len(),
                n == s.len(),
                sub_idx < pow2(n_top as nat),
                size == 2 * half_block(log_d as nat, lanes as nat, n_top as nat),
                from == sub_start,
                sub_start == sub_idx * size,
                to == from + size,
                to <= n,
                data@ == patched(
                    a,
                    self.forward_layers(
                        s,
                        log_d as nat,
                        lanes as nat,
                        begin as nat,
                        layer as nat,
                    ),
                    from,
                    to,
                ),
            decreases log_d - layer,
        {
            let ghost cur = self.forward_layers(
                s,
                log_d as nat,
                lanes as nat,
                begin as nat,
                layer as nat,
            );
            let ghost h0 = half_block(log_d as nat, lanes as nat, layer as nat);
            let ghost tw = self.layer_twiddles(layer as nat);
            let ghost f = layer_map(cur, h0, tw);
            proof {
                lemma_forward_layers_len(
                    self,
                    s,
                    log_d as nat,
                    lanes as nat,
                    begin as nat,
                    layer as nat,
                );
                lemma_layer_shape(log_d as nat, lanes as nat, layer as nat);
                lemma_layer_bounds(log_d as nat, lanes as nat, layer as nat, n as nat);
                lemma_layer_bounds(log_d as nat, lanes as nat, n_top as nat, n as nat);
                lemma_sub_shape(log_d as nat, lanes as nat, n_top as nat, layer as nat);
                if layer > n_top {
                    lemma_pow2_strictly_increases((layer - n_top) as nat, layer as nat + 1);
                } else {
                    lemma2_to64();
                }
            }
            let blocks_in_sub: usize = pow2_in_sub(layer, n_top, Ghost(log_d as nat), Ghost(n as nat), lanes);
            let h: usize = pow2_usize(log_d - layer - 1) * lanes;
            let mut bi: usize = 0;
            assert(data@ =~= patched(patched(a, cur, from, to), f, from, from + 0 * (2 * h0)));
            while bi < blocks_in_sub
                invariant
                    self.wf(),
                    lanes > 0,
                    layer < log_d <= self.dim(),
                    log_d < usize::BITS,
                    h == h0,
                    h > 0,
                    n == s.len(),
                    cur.len() == n,
                    a.len() == n,
                    to <= n,
                    from == sub_start,
                    sub_start == sub_idx * size,
                    to == from + size,
                    size == blocks_in_sub * (2 * h0),
                    blocks_in_sub == pow2((layer - n_top) as nat),
                    sub_idx < pow2(n_top as nat),
                    n_top <= layer,
                    n == pow2(layer as nat) * (2 * h0),
                    pow2(layer as nat) == pow2(n_top as nat) * blocks_in_sub,
                    tw == self.layer_twiddles(layer as nat),
                    f == layer_map(cur, h0, tw),
                    bi <= blocks_in_sub,
                    data@ == patched(
                        patched(a, cur, from, to),
                        f,
                        from,
                        from + bi * (2 * h0),
                    ),
                decreases blocks_in_sub - bi,
            {
                proof {
                    lemma_global_block(
                        sub_idx as int,
                        blocks_in_sub as int,
                        bi as int,
                        h0,
                        pow2(n_top as nat) as int,
                        size,
                        n as int,
                    );
                    let g = sub_idx * blocks_in_sub + bi;
                    lemma_window_progress(a, cur, h0, tw, g, from, to);
                    assert(tw(g) == self.twiddle_at(layer as nat, g as nat));
                }
                let global_block: usize = sub_idx * blocks_in_sub + bi;
                let t = self.twiddle(layer, global_block);
                butterfly_interleaved_block(data, sub_start + bi * (2 * h), h, t);
                bi = bi + 1;
            }
            assert(data@ =~= patched(a, f, from, to));
            layer = layer + 1;
        }
    }
}

/// The number of blocks of layer `layer` in one sub-transform.
fn pow2_in_sub(
    layer: usize,
    n_top: usize,
    Ghost(log_d): Ghost<nat>,
    Ghost(n): Ghost<nat>,
    lanes: usize,
) -> (r: usize)
    requires
        n_top <= layer < log_d,
        lanes > 0,
        n == pow2(log_d) * lanes,
        n <= usize::MAX,
    ensures
        r == pow2((layer - n_top) as nat),
{
    proof {
        lemma_layer_bounds(log_d, lanes as nat, layer as nat, n);
        if n_top > 0 {
            lemma_pow2_strictly_increases((layer - n_top) as nat, layer as nat);
        }
    }
    pow2_usize(layer - n_top)
}

proof fn lemma_sub_shape(log_d: nat, lanes: nat, n_top: nat, layer: nat)
    requires
        n_top <= layer < log_d,
        lanes > 0,
    ensures
        2 * half_block(log_d, lanes, n_top) == pow2((layer - n_top) as nat) * (2 * half_block(
            log_d,
            lanes,
            layer,
        )),
        pow2(layer) == pow2(n_top) * pow2((layer - n_top) as nat),
{
    let d = (layer - n_top) as nat;
    lemma_pow2_adds(d, (log_d - layer - 1) as nat);
    lemma_pow2_adds(n_top, d);
    let (x, y) = (pow2(d) as int, pow2((log_d - layer - 1) as nat) as int);
    assert(2 * ((x * y) * lanes) == x * (2 * (y * lanes))) by (nonlinear_arith);
}

proof fn lemma_global_block(
    sub_idx: int,
    per_sub: int,
    bi: int,
    h: int,
    num_subs: int,
    size: int,
    n: int,
)
    requires
        0 <= sub_idx < num_subs,
        0 <= bi < per_sub,
        h > 0,
        size == per_sub * (2 * h),
        n == (num_subs * per_sub) * (2 * h),
        n <= usize::MAX,
    ensures
        0 <= sub_idx * per_sub + bi <= usize::MAX,
        sub_idx * per_sub <= usize::MAX,
        (sub_idx * per_sub + bi) * (2 * h) == sub_idx * size + bi * (2 * h),
        (sub_idx * per_sub + bi + 1) * (2 * h) == sub_idx * size + (bi + 1) * (2 * h),
        sub_idx * size + (bi + 1) * (2 * h) <= (sub_idx + 1) * size,
        sub_idx * size <= (sub_idx * per_sub + bi) * (2 * h),
        (sub_idx + 1) * size == sub_idx * size + size,
        (bi + 1) * (2 * h) == bi * (2 * h) + 2 * h,
        sub_idx * size + bi * (2 * h) + 2 * h <= n,
        bi * (2 * h) >= 0,
        sub_idx * size >= 0,
{
    let g = sub_idx * per_sub + bi;
    assert(g >= 0 && sub_idx * per_sub >= 0) by (nonlinear_arith)
        requires
            g == sub_idx * per_sub + bi,
            sub_idx >= 0,
            per_sub > 0,
            bi >= 0,
    ;
    assert(sub_idx * size == (sub_idx * per_sub) * (2 * h)) by (nonlinear_arith)
        requires
            size == per_sub * (2 * h),
    ;
    assert(g * (2 * h) == (sub_idx * per_sub) * (2 * h) + bi * (2 * h)) by (nonlinear_arith)
        requires
            g == sub_idx * per_sub + bi,
    ;
    assert((g + 1) * (2 * h) == g * (2 * h) + 2 * h) by (nonlinear_arith);
    assert((bi + 1) * (2 * h) == bi * (2 * h) + 2 * h) by (nonlinear_arith);
    assert((bi + 1) * (2 * h) <= per_sub * (2 * h)) by (nonlinear_arith)
        requires
            bi + 1 <= per_sub,
            h > 0,
    ;
    assert((sub_idx + 1) * size == sub_idx * size + size) by (nonlinear_arith);
    assert((sub_idx + 1) * per_sub <= num_subs * per_sub) by (nonlinear_arith)
        requires
            sub_idx + 1 <= num_subs,
            per_sub > 0,
    ;
    assert((sub_idx + 1) * per_sub == sub_idx * per_sub + per_sub) by (nonlinear_arith);
    let total = num_subs * per_sub;
    assert(total <= n && (g + 1) * (2 * h) <= total * (2 * h)) by (nonlinear_arith)
        requires
            n == total * (2 * h),
            g + 1 <= total,
            h > 0,
            total >= 0,
    ;
    assert(bi * (2 * h) >= 0) by (nonlinear_arith)
        requires
            bi >= 0,
            h > 0,
    ;
    assert(sub_idx * size >= 0) by (nonlinear_arith)
        requires
            sub_idx >= 0,
            size == per_sub * (2 * h),
            per_sub > 0,
            h > 0,
    ;
}

proof fn lemma_forward_layers_compose(
    ntt: &AdditiveNttF128,
    s: Seq<F128>,
    log_d: nat,
    lanes: nat,
    from: nat,
    mid: nat,
    to: nat,
)
    requires
        from <= mid <= to,
    ensures
        ntt.forward_layers(
            ntt.forward_layers(s, log_d, lanes, from, mid),
            log_d,
            lanes,
            mid,
            to,
        ) == ntt.forward_layers(s, log_d, lanes, from, to),
    decreases to,
{
    if to > mid {
        lemma_forward_layers_compose(ntt, s, log_d, lanes, from, mid, (to - 1) as nat);
    }
}

/// `k` is the least exponent with `n ≤ 2^k`.
spec fn is_ceil_log(n: nat, k: nat) -> bool {
    &&& n <= pow2(k)
    &&& k > 0 ==> pow2((k - 1) as nat) < n
}

/// The least exponent of a power of two that is not below `n`.
spec fn ceil_log(n: nat) -> nat {
    choose|k: nat| is_ceil_log(n, k)
}

/// There is only one least exponent.
proof fn lemma_ceil_log(n: nat, k: nat)
    requires
        is_ceil_log(n, k),
    ensures
        ceil_log(n) == k,
{
    let c = ceil_log(n);
    assert(is_ceil_log(n, c));
    if c < k && c != k - 1 {
        lemma_pow2_strictly_increases(c, (k - 1) as nat);
    }
    if k < c && k != c - 1 {
        lemma_pow2_strictly_increases(k, (c - 1) as nat);
    }
}

/// The top layers above sub-transforms that fit the cache: a position takes
/// `2^(4 + log_lanes)` bytes, and the `2^target` positions of a sub-transform are to take
/// `2^TARGET_SUBGROUP_LOG_BYTES`.
spec fn cache_top_layers(log_d: int, log_lanes: int) -> int {
    let target = if log_lanes <= TARGET_SUBGROUP_LOG_BYTES - 4 {
        TARGET_SUBGROUP_LOG_BYTES - 4 - log_lanes
    } else {
        0
    };
    if target <= log_d {
        log_d - target
    } else {
        0
    }
}

/// The top layers above sub-transforms of which each thread gets one, as far as these stay
/// large enough. Small transforms are not cut up for the sake of threads.
spec fn thread_top_layers(log_d: int, threads: nat) -> int {
    if log_d < PARALLEL_FLOOR_LOG_D {
        0
    } else if ceil_log(threads) <= log_d - MIN_SUB_LOG {
        ceil_log(threads) as int
    } else {
        log_d - MIN_SUB_LOG
    }
}

/// How many top layers sweep the whole buffer, for `2^log_d` positions of
/// `2^log_lanes` lanes: enough for the sub-transforms to fit the cache, and,
/// for a transform that is large enough, enough to give each thread one.
fn top_layer_count(log_d: usize, log_lanes: usize, threads: usize) -> (n_top: usize)
    requires
        log_lanes < 64,
        log_d < 64,
    ensures
        n_top <= log_d,
        ({
            let for_cache = cache_top_layers(log_d as int, log_lanes as int);
            let for_threads = thread_top_layers(log_d as int, threads as nat);
            n_top == if for_cache >= for_threads {
                for_cache
            } else {
                for_threads
            }
        }),
        n_top == log_d || log_d - n_top + log_lanes + 4 <= 21,
        log_d >= 12 ==> threads <= pow2(n_top as nat) || n_top >= log_d - 8,
        n_top > 0 ==> log_d - (n_top - 1) + log_lanes + 4 > 21 || {
            &&& log_d >= 12
            &&& pow2((n_top - 1) as nat) < threads
            &&& n_top <= log_d - 8
        },
{
    let target: usize = TARGET_SUBGROUP_LOG_BYTES.saturating_sub(4 + log_lanes);
    let cache_n_top: usize = log_d.saturating_sub(target);
    if log_d < PARALLEL_FLOOR_LOG_D {
        return cache_n_top;
    }
    let want: usize = ceil_log2(threads);
    let max_n_top: usize = log_d.saturating_sub(MIN_SUB_LOG);
    proof {
        if want < cache_n_top {
            lemma_pow2_strictly_increases(want as nat, cache_n_top as nat);
        }
        if 0 < max_n_top && max_n_top < want {
            if max_n_top - 1 < want - 1 {
                lemma_pow2_strictly_increases((max_n_top - 1) as nat, (want - 1) as nat);
            }
        }
    }
    let floor: usize = if want < max_n_top {
        want
    } else {
        max_n_top
    };
    if cache_n_top < floor {
        floor
    } else {
        cache_n_top
    }
}

/// The least `k` with `n ≤ 2^k`.
fn ceil_log2(n: usize) -> (k: usize)
    ensures
        is_ceil_log(n as nat, k as nat),
        k == ceil_log(n as nat),
{
    let mut k: usize = 0;
    // The quotient of `n` by `2^k`, rounded up.
    let mut m: usize = n;
    proof {
        lemma2_to64();
    }
    while m > 1
        invariant
            n <= m * pow2(k as nat),
            n > 0 ==> (m - 1) * pow2(k as nat) < n,
            m <= n,
            n > 0 ==> m > 0,
            k > 0 && m == 1 ==> pow2((k - 1) as nat) < n,
            k + m <= n || k == 0,
        decreases m,
    {
        proof {
            lemma_pow2_unfold((k + 1) as nat);
            let r = (m / 2 + m % 2) as int;
            let p = pow2(k as nat) as int;
            assert(n <= r * (2 * p)) by (nonlinear_arith)
                requires
                    n <= m * p,
                    m <= 2 * r,
                    p >= 0,
            ;
            assert((r - 1) * (2 * p) < n && p < n) by (nonlinear_arith)
                requires
                    (m - 1) * p < n,
                    2 * r <= m + 1,
                    m >= 2,
                    p >= 0,
            ;
        }
        m = m / 2 + m % 2;
        k = k + 1;
    }
    proof {
        lemma_pow2_pos(k as nat);
        assert(m * pow2(k as nat) <= pow2(k as nat)) by (nonlinear_arith)
            requires
                m <= 1,
                pow2(k as nat) >= 0,
        ;
        lemma_ceil_log(n as nat, k as nat);
    }
    k
}

} // verus!
