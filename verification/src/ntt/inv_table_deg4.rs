//! Single-table collapse of the low-degree-extension matrix
//! `M = fwd_NTT_V₈ ∘ inv_NTT_S`, for an input domain S inside a larger output
//! domain V₈.
//!
//! The output domain is **closed under XOR with the input domain**, so
//!
//!   `M[i', 8b + t]  =  T_0[2^t][i' ⊕ 8b]`
//!
//! and one table of 256 rows, of the images of the bytes of chunk 0, serves all the
//! chunks of an input row. For degree 4 the input domain S has `|S| = 64 = 2^6` and
//! the output domain V₈ has `|V₈| = 256 = 2^8 = |F₈|`.
//!
//! ## Apply
//!
//! Input: 8 bytes `bytes[0..8]` (one per chunk; the 64-bit S row).
//! Output: 256 F₈ bytes — evaluations on V₈ in canonical order.
//! The first 64 (positions on S) reproduce the original input bits; the last
//! 192 (positions on Λ₄ = V₈ \ S) are the fresh extension.
use vstd::arithmetic::power2::{
    lemma2_to64, lemma_pow2_adds, lemma_pow2_pos, lemma_pow2_strictly_increases,
    lemma_pow2_unfold, pow2,
};
use vstd::prelude::*;
use crate::field::gf2_8::{lemma_add_rules8, F8};
use crate::index::{index_bit, lemma_high_bit, lemma_pow2_fits};
use crate::ntt::additive_ntt_gf8::{lemma_transform_len, AdditiveNttGf8};

verus! {

/// `c` followed by zeros up to length `n`.
pub open spec fn zero_padded(c: Seq<F8>, n: nat) -> Seq<F8> {
    Seq::new(
        n,
        |i: int|
            if i < c.len() {
                c[i]
            } else {
                F8::zero()
            },
    )
}

/// The vector of length `n` with a one at position `t` and zeros elsewhere.
pub open spec fn unit8(n: nat, t: int) -> Seq<F8> {
    Seq::new(
        n,
        |i: int|
            if i == t {
                F8::one()
            } else {
                F8::zero()
            },
    )
}

/// The low-degree extension of values on S to V₈: to coefficients on S, padded, and
/// to values on V₈.
pub open spec fn extension(ntt_s: AdditiveNttGf8, ntt_v8: AdditiveNttGf8, a: Seq<F8>) -> Seq<F8> {
    ntt_v8.forward_spec(zero_padded(ntt_s.inverse_spec(a), pow2(ntt_v8.log_size())))
}

/// The images of the first eight unit vectors.
pub open spec fn unit_columns(ntt_s: AdditiveNttGf8, ntt_v8: AdditiveNttGf8) -> Seq<Seq<F8>> {
    Seq::new(8, |t: int| extension(ntt_s, ntt_v8, unit8(pow2(ntt_s.log_size()), t)))
}

/// The sum, at position `i`, of the columns below `n` selected by the bits of `w`.
pub open spec fn selected(cols: Seq<Seq<F8>>, w: nat, n: nat, i: int) -> F8
    decreases n,
{
    if n == 0 {
        F8::zero()
    } else {
        let rest = selected(cols, w, (n - 1) as nat, i);
        if index_bit(w, (n - 1) as nat) {
            rest + cols[n - 1][i]
        } else {
            rest
        }
    }
}

/// A bit above those of `w` adds its column.
proof fn lemma_selected_high_bit(cols: Seq<Seq<F8>>, w: nat, t: nat, n: nat, i: int)
    requires
        w < pow2(t),
    ensures
        n <= t ==> selected(cols, w + pow2(t), n, i) == selected(cols, w, n, i),
        n > t ==> selected(cols, w + pow2(t), n, i) == selected(cols, w, n, i) + cols[t as int][i],
    decreases n,
{
    if n > 0 {
        let m = (n - 1) as nat;
        lemma_selected_high_bit(cols, w, t, m, i);
        lemma_high_bit(w, t, m);
    }
}

/// The columns selected by no bit sum to zero.
proof fn lemma_selected_zero(cols: Seq<Seq<F8>>, n: nat, i: int)
    ensures
        selected(cols, 0, n, i) == F8::zero(),
    decreases n,
{
    if n > 0 {
        lemma_selected_zero(cols, (n - 1) as nat, i);
        lemma_pow2_pos((n - 1) as nat);
        vstd::arithmetic::div_mod::lemma_div_basics(pow2((n - 1) as nat) as int);
    }
}

/// The XOR of two positions.
pub open spec fn shifted_position(i: int, s: int) -> int {
    ((i as usize) ^ (s as usize)) as int
}

proof fn lemma_xor_words(i: u64, s: u64, k: u64)
    by (bit_vector)
    requires
        k < 64,
        i < 1u64 << k,
        s < 1u64 << k,
    ensures
        i ^ s < 1u64 << k,
        (i ^ s) ^ s == i,
        (i ^ s) / 16 == (i / 16) ^ (s / 16),
        (i ^ s) % 16 == (i % 16) ^ (s % 16),
        (i ^ s) / 32 == (i / 32) ^ (s / 32),
        (i ^ s) % 32 == (i % 32) ^ (s % 32),
        i % 16 < 8 ==> (i % 16) ^ 8 == i % 16 + 8,
        i % 16 >= 8 ==> (i % 16) ^ 8 == i % 16 - 8,
        i < 8 && s % 8 == 0 ==> i ^ s == i + s,
        i ^ 0 == i,
        (i % 32) ^ (s % 32) == 8 * (((i % 32) / 8) ^ ((s % 32) / 8)) + ((i % 8) ^ (s % 8)),
        i % 8 ^ 0 == i % 8,
{
}

/// Positions below `2^k` are closed under XOR, which undoes itself, works on the
/// blocks of 16 and within them separately, and adds a multiple of eight to a
/// position below eight.
pub proof fn lemma_shifted_position(i: int, s: int, k: nat)
    requires
        pow2(k) <= usize::MAX,
        0 <= i < pow2(k),
        0 <= s < pow2(k),
    ensures
        0 <= shifted_position(i, s) < pow2(k),
        shifted_position(shifted_position(i, s), s) == i,
        shifted_position(i, 0) == i,
        i < 8 && s % 8 == 0 ==> shifted_position(i, s) == i + s,
        shifted_position(i, s) / 16 == shifted_position(i / 16, s / 16),
        s % 16 == 0 ==> shifted_position(i, s) % 16 == i % 16,
        s % 16 == 8 ==> shifted_position(i, s) % 16 == (i % 16 + 8) % 16,
        s % 8 == 0 ==> shifted_position(i, s) == 32 * shifted_position(i / 32, s / 32) + 8
            * shifted_position((i % 32) / 8, (s % 32) / 8) + i % 8,
{
    lemma_pow2_fits(k);
    vstd::bits::lemma_u64_shl_is_mul(1, k as u64);
    lemma_u64_holds_usize(k);
    lemma_pow2_pos(k);
    lemma_xor_words(i as u64, s as u64, k as u64);
    lemma_xor_words((i % 16) as u64, 0, k as u64);
    lemma_xor_words(i as u64, 0, k as u64);
    assert((i as usize) ^ (s as usize) == (i as u64) ^ (s as u64));
    assert((i as usize) ^ 0usize == (i as u64) ^ 0u64);
    assert(((i / 16) as usize) ^ ((s / 16) as usize) == ((i / 16) as u64) ^ ((s / 16) as u64));
    let x = (i as usize) ^ (s as usize);
    assert(x ^ (s as usize) == (x as u64) ^ (s as u64));
    assert((i as u64 / 16) as int == i / 16);
    assert((s as u64 / 16) as int == s / 16);
    assert(((i % 16) as u64) % 16 == i % 16);
    if s % 8 == 0 {
        assert(((i / 32) as usize) ^ ((s / 32) as usize) == ((i / 32) as u64) ^ ((s / 32) as u64));
        let (p, q) = ((i % 32) / 8, (s % 32) / 8);
        assert((p as usize) ^ (q as usize) == (p as u64) ^ (q as u64));
        assert((i as u64 / 32) as int == i / 32 && (s as u64 / 32) as int == s / 32);
        assert(((i as u64) % 32) / 8 == p && ((s as u64) % 32) / 8 == q);
        assert((s as u64) % 8 == 0u64);
        assert((i as u64) % 8 == i % 8);
    }
}

/// The shift by `8b` in blocks of 16: another block, and its halves swapped where `b`
/// is odd.
proof fn lemma_shift_in_16(c: int, r: int, b: int, k: nat)
    requires
        pow2(k) <= usize::MAX,
        0 <= c,
        0 <= r < 16,
        0 <= b,
        16 * c + r < pow2(k),
        8 * b < pow2(k),
    ensures
        shifted_position(16 * c + r, 8 * b) == 16 * shifted_position(c, b / 2) + (if b % 2 != 0 {
            (r + 8) % 16
        } else {
            r
        }),
{
    let i = 16 * c + r;
    lemma_shifted_position(i, 8 * b, k);
    assert(i / 16 == c && i % 16 == r && (8 * b) / 16 == b / 2);
}

/// The shift by `8b` in blocks of 32: another block, and its lanes of eight permuted.
proof fn lemma_shift_in_32(c: int, r: int, b: int, k: nat)
    requires
        pow2(k) <= usize::MAX,
        0 <= c,
        0 <= r < 32,
        0 <= b,
        32 * c + r < pow2(k),
        8 * b < pow2(k),
    ensures
        shifted_position(32 * c + r, 8 * b) == 32 * shifted_position(c, b / 4) + 8
            * shifted_position(r / 8, b % 4) + r % 8,
{
    let i = 32 * c + r;
    lemma_shifted_position(i, 8 * b, k);
    assert(i / 32 == c && i % 32 == r && (8 * b) / 32 == b / 4);
    assert(((8 * b) % 32) / 8 == b % 4 && (8 * b) % 8 == 0 && i % 8 == r % 8);
}

proof fn lemma_u64_holds_usize(k: nat)
    requires
        k < 64,
    ensures
        1 * pow2(k) <= u64::MAX,
{
    lemma2_to64();
    vstd::arithmetic::power2::lemma2_to64_rest();
    if k < 63 {
        lemma_pow2_strictly_increases(k, 63);
    }
}

/// `M = fwd_NTT_V₈ ∘ inv_NTT_S` collapsed into a single table of 256 rows.
///
/// Construct via [`InvNttTableSToV8Gf8::new`]; apply via [`InvNttTableSToV8Gf8::apply`].
#[derive(Clone, Debug)]
pub struct InvNttTableSToV8Gf8 {
    /// log₂ of the input domain size (= 6 for the deg-4 zerocheck).
    pub k_in: usize,
    /// log₂ of the output domain size (= 8 for the deg-4 zerocheck).
    pub k_out: usize,
    /// |S| = 2^k_in.
    pub ell_in: usize,
    /// |V₈| = 2^k_out.
    pub ell_out: usize,
    /// Number of input bytes per row (= ell_in / 8 = 8).
    pub n_chunks: usize,
    /// `data[w * ell_out .. (w+1) * ell_out]` = T_0[w], the XOR-sum of the
    /// columns of `M` indexed by the set bits of `w` (taken from cols[0..8]).
    pub data: Vec<F8>,
}

impl InvNttTableSToV8Gf8 {
    /// The 256 rows, one after the other.
    pub open spec fn rows(&self) -> Seq<F8> {
        self.data@
    }

    /// The sizes belong together.
    pub open spec fn wf(&self) -> bool {
        &&& 3 <= self.k_in <= self.k_out
        &&& self.ell_in == pow2(self.k_in as nat)
        &&& self.ell_out == pow2(self.k_out as nat)
        &&& 8 * self.n_chunks == self.ell_in
        &&& self.n_chunks <= 16
        &&& self.rows().len() == 256 * self.ell_out
    }

    /// Row `w` is the sum of the images of the unit vectors at the set bits of `w`.
    pub open spec fn is_table_of(&self, ntt_s: AdditiveNttGf8, ntt_v8: AdditiveNttGf8) -> bool {
        &&& self.k_in == ntt_s.log_size()
        &&& self.k_out == ntt_v8.log_size()
        &&& forall|w: int, i: int|
            0 <= w < 256 && 0 <= i < self.ell_out ==> self.rows()[#[trigger] row_position(
                self.ell_out as int,
                w,
                i,
            )] == selected(unit_columns(ntt_s, ntt_v8), w as nat, 8, i)
    }

    /// The sum, at position `i`, of the rows of the first `n` bytes, each with its
    /// positions shifted by that of its chunk.
    pub open spec fn applied(&self, bytes: Seq<u8>, n: nat, i: int) -> F8
        decreases n,
    {
        if n == 0 {
            F8::zero()
        } else {
            self.applied(bytes, (n - 1) as nat, i) + self.rows()[row_position(
                self.ell_out as int,
                bytes[n - 1] as int,
                shifted_position(i, 8 * (n - 1)),
            )]
        }
    }

    /// What `apply` writes for a row of bytes.
    pub open spec fn apply_spec(&self, bytes: Seq<u8>) -> Seq<F8> {
        Seq::new(self.ell_out as nat, |i: int| self.applied(bytes, self.n_chunks as nat, i))
    }
}

/// Where row `w` of rows of length `ell` has its entry `i`.
pub open spec fn row_position(ell: int, w: int, i: int) -> int {
    w * ell + i
}

/// The entries of different rows lie apart and inside the table.
proof fn lemma_row_position(ell: int, w: int, i: int, n: int)
    requires
        0 <= w < n,
        0 <= i < ell,
    ensures
        0 <= row_position(ell, w, i) < n * ell,
        w * ell + ell <= n * ell,
        0 <= w * ell,
{
    assert(w * ell + ell <= n * ell && 0 <= w * ell) by (nonlinear_arith)
        requires
            0 <= w < n,
            0 <= i < ell,
    ;
}

/// The image of the unit vector at `t`.
fn unit_column(ntt_s: &AdditiveNttGf8, ntt_v8: &AdditiveNttGf8, t: usize) -> (col: Vec<F8>)
    requires
        ntt_s.wf(),
        ntt_v8.wf(),
        ntt_s.log_size() <= ntt_v8.log_size(),
        t < pow2(ntt_s.log_size()),
    ensures
        col@ == extension(*ntt_s, *ntt_v8, unit8(pow2(ntt_s.log_size()), t as int)),
        col@.len() == pow2(ntt_v8.log_size()),
{
    let ell_in: usize = ntt_s.domain_size();
    let ell_out: usize = ntt_v8.domain_size();
    proof {
        if ntt_s.log_size() < ntt_v8.log_size() {
            lemma_pow2_strictly_increases(ntt_s.log_size(), ntt_v8.log_size());
        }
        lemma_transform_len(unit8(ell_in as nat, t as int), ntt_s.table(), 1);
    }
    let mut tmp_in: Vec<F8> = vec![F8::zero(); ell_in];
    tmp_in.set(t, F8::one());
    assert(tmp_in@ =~= unit8(ell_in as nat, t as int));
    ntt_s.inverse(tmp_in.as_mut_slice());
    let ghost coeffs = ntt_s.inverse_spec(unit8(ell_in as nat, t as int));
    // Pad to ell_out: the k_out novel basis extends the k_in basis as a prefix.
    let mut tmp_out: Vec<F8> = tmp_in;
    tmp_out.resize(ell_out, F8::zero());
    assert(tmp_out@ =~= zero_padded(coeffs, ell_out as nat)) by {
        assert forall|q: int| 0 <= q < ell_in implies tmp_out@[q] == coeffs[q] by {
            assert(tmp_out@[q] == tmp_out@.subrange(0, ell_in as int)[q]);
        }
    }
    proof {
        lemma_transform_len(tmp_out@, ntt_v8.table(), 1);
    }
    ntt_v8.forward(tmp_out.as_mut_slice());
    tmp_out
}

/// The 256 rows of the table from the images of the first eight unit vectors:
/// the rows `2^t .. 2^{t+1}` are the rows below `2^t` plus column `t`.
#[verifier::rlimit(40)]
fn build_rows(cols: &Vec<Vec<F8>>, ell: usize) -> (data: Vec<F8>)
    requires
        cols@.len() == 8,
        forall|t: int| 0 <= t < 8 ==> (#[trigger] cols@[t])@.len() == ell,
        256 * ell <= usize::MAX,
        ell >= 1,
    ensures
        data@.len() == 256 * ell,
        forall|w: int, i: int|
            0 <= w < 256 && 0 <= i < ell ==> data@[#[trigger] row_position(ell as int, w, i)]
                == selected(columns_of(cols@), w as nat, 8, i),
{
    let ghost vals = columns_of(cols@);
    let mut data: Vec<F8> = vec![F8::zero(); 256 * ell];
    proof {
        lemma2_to64();
        assert forall|w: int, i: int| 0 <= w < 1 && 0 <= i < ell implies data@[#[trigger] row_position(
            ell as int,
            w,
            i,
        )] == selected(vals, w as nat, 8, i) by {
            lemma_row_position(ell as int, w, i, 256);
            lemma_selected_zero(vals, 8, i);
        }
    }
    let mut t: usize = 0;
    let mut base: usize = 1;
    while t < 8
        invariant
            t <= 8,
            base == pow2(t as nat),
            1 <= base <= 256,
            pow2(8) == 256,
            cols@.len() == 8,
            forall|t: int| 0 <= t < 8 ==> (#[trigger] cols@[t])@.len() == ell,
            vals == columns_of(cols@),
            256 * ell <= usize::MAX,
            ell >= 1,
            data@.len() == 256 * ell,
            forall|w: int, i: int|
                0 <= w < base && 0 <= i < ell ==> data@[#[trigger] row_position(ell as int, w, i)]
                    == selected(vals, w as nat, 8, i),
        decreases 8 - t,
    {
        proof {
            lemma_pow2_unfold(t as nat + 1);
            if t + 1 < 8 {
                lemma_pow2_strictly_increases(t as nat + 1, 8);
            }
        }
        let mut w: usize = 0;
        while w < base
            invariant
                t < 8,
                w <= base,
                base == pow2(t as nat),
                2 * base <= 256,
                cols@.len() == 8,
                forall|t: int| 0 <= t < 8 ==> (#[trigger] cols@[t])@.len() == ell,
                vals == columns_of(cols@),
                256 * ell <= usize::MAX,
                ell >= 1,
                data@.len() == 256 * ell,
                forall|v: int, i: int|
                    0 <= v < base + w && 0 <= i < ell ==> data@[#[trigger] row_position(
                        ell as int,
                        v,
                        i,
                    )] == selected(vals, v as nat, 8, i),
            decreases base - w,
        {
            let ghost start = data@;
            let mut i: usize = 0;
            proof {
                lemma_row_position(ell as int, w as int, 0, 256);
                lemma_row_position(ell as int, base + w, 0, 256);
                assert(w * ell + ell <= (base + w) * ell) by (nonlinear_arith)
                    requires
                        base >= 1,
                        ell >= 1,
                ;
            }
            while i < ell
                invariant
                    t < 8,
                    i <= ell,
                    w < base,
                    base + w < 256,
                    w * ell + ell <= (base + w) * ell,
                    (base + w) * ell + ell <= 256 * ell,
                    0 <= w * ell,
                    256 * ell <= usize::MAX,
                    data@.len() == 256 * ell,
                    start.len() == data@.len(),
                    cols@.len() == 8,
                    cols@[t as int]@.len() == ell,
                    forall|q: int| 0 <= q < (base + w) * ell ==> #[trigger] data@[q] == start[q],
                    forall|q: int|
                        0 <= q < i ==> data@[#[trigger] row_position(ell as int, base + w, q)]
                            == start[row_position(ell as int, w as int, q)] + cols@[t as int]@[q],
                decreases ell - i,
            {
                let v = data[w * ell + i] + cols[t][i];
                assert(row_position(ell as int, base + w, i as int) == (base + w) * ell + i);
                assert(data@[w * ell + i] == start[row_position(ell as int, w as int, i as int)]);
                data.set((base + w) * ell + i, v);
                i = i + 1;
            }
            proof {
                assert forall|v: int, i: int|
                    0 <= v < base + w + 1 && 0 <= i < ell implies data@[#[trigger] row_position(
                    ell as int,
                    v,
                    i,
                )] == selected(vals, v as nat, 8, i) by {
                    if v < base + w {
                        lemma_row_position(ell as int, v, i, base + w);
                    } else {
                        lemma_selected_high_bit(vals, w as nat, t as nat, 8, i);
                        assert(start[row_position(ell as int, w as int, i)] == selected(
                            vals,
                            w as nat,
                            8,
                            i,
                        ));
                    }
                }
            }
            w = w + 1;
        }
        t = t + 1;
        base = 2 * base;
    }
    data
}

/// The columns as sequences of values.
pub open spec fn columns_of(cols: Seq<Vec<F8>>) -> Seq<Seq<F8>> {
    Seq::new(cols.len(), |t: int| cols[t]@)
}

impl InvNttTableSToV8Gf8 {
    /// Build the table given the input NTT `ntt_s` (k=`k_in`) and the output
    /// NTT `ntt_v8` (k=`k_out`).
    ///
    /// Requires `k_in <= k_out` and `3 <= k_in <= 7` (so there is a chunk and the
    /// chunk-XOR encoding fits).
    pub fn new(ntt_s: &AdditiveNttGf8, ntt_v8: &AdditiveNttGf8) -> (r: Self)
        requires
            ntt_s.wf(),
            ntt_v8.wf(),
            3 <= ntt_s.log_size() <= ntt_v8.log_size(),
            ntt_s.log_size() <= 7,
            256 * pow2(ntt_v8.log_size()) <= usize::MAX,
        ensures
            r.wf(),
            r.is_table_of(*ntt_s, *ntt_v8),
    {
        let k_in: usize = ntt_s.k();
        let k_out: usize = ntt_v8.k();
        let ell_in: usize = ntt_s.domain_size();
        let ell_out: usize = ntt_v8.domain_size();
        let n_chunks: usize = ell_in / 8;
        proof {
            lemma2_to64();
            lemma_pow2_pos(k_out as nat);
            lemma_pow2_adds(3, (k_in - 3) as nat);
            if k_in < 7 {
                lemma_pow2_strictly_increases(k_in as nat, 7);
            }
            lemma_pow2_pos((k_in - 3) as nat);
        }
        let mut cols: Vec<Vec<F8>> = Vec::new();
        let mut t: usize = 0;
        while t < 8
            invariant
                t <= 8,
                ntt_s.wf(),
                ntt_v8.wf(),
                ntt_s.log_size() <= ntt_v8.log_size(),
                8 <= pow2(ntt_s.log_size()),
                ell_out == pow2(ntt_v8.log_size()),
                cols@.len() == t,
                forall|q: int|
                    0 <= q < t ==> (#[trigger] cols@[q])@ == unit_columns(*ntt_s, *ntt_v8)[q]
                        && cols@[q]@.len() == ell_out,
            decreases 8 - t,
        {
            cols.push(unit_column(ntt_s, ntt_v8, t));
            t = t + 1;
        }
        assert(columns_of(cols@) =~= unit_columns(*ntt_s, *ntt_v8));
        let data = build_rows(&cols, ell_out);
        InvNttTableSToV8Gf8 { k_in, k_out, ell_in, ell_out, n_chunks, data }
    }

    /// The table data, row after row.
    #[inline]
    pub fn data_ptr(&self) -> (r: &[F8])
        ensures
            r@ == self.rows(),
    {
        self.data.as_slice()
    }

    /// The rows of the bytes can be read at every shifted position.
    proof fn lemma_entry(&self, w: int, i: int, b: int)
        requires
            self.wf(),
            0 <= w < 256,
            0 <= i < self.ell_out,
            0 <= b < self.n_chunks,
        ensures
            0 <= shifted_position(i, 8 * b) < self.ell_out,
            0 <= w * self.ell_out,
            w * self.ell_out + self.ell_out <= self.rows().len(),
            0 <= 8 * b < self.ell_out,
    {
        if self.k_in < self.k_out {
            lemma_pow2_strictly_increases(self.k_in as nat, self.k_out as nat);
        }
        lemma_shifted_position(i, 8 * b, self.k_out as nat);
        lemma_row_position(self.ell_out as int, w, i, 256);
    }

    /// Apply M to a single byte-packed S row.
    ///
    /// - `bytes`: length `n_chunks` (= 8 for the deg-4 case), each byte is
    ///   8 bits of the S input row in LSB-first order.
    /// - `out`: length `ell_out` (= 256 for the deg-4 case). Written entirely.
    ///   The first `ell_in` lanes reproduce the input bits on S; the rest are
    ///   fresh evaluations on V₈ \ S.
    ///
    /// For chunk index b ∈ 0..n_chunks, the contribution is `T_0[bytes[b]]`
    /// permuted by the XOR-shift `i' → i' ⊕ 8b`.
    pub fn apply_scalar(&self, bytes: &[u8], out: &mut [F8])
        requires
            self.wf(),
            bytes@.len() == self.n_chunks,
            old(out)@.len() == self.ell_out,
        ensures
            final(out)@ == self.apply_spec(bytes@),
    {
        let n: usize = self.data.len();
        let mut i: usize = 0;
        while i < self.ell_out
            invariant
                i <= self.ell_out,
                out@.len() == self.ell_out,
                forall|q: int| 0 <= q < i ==> #[trigger] out@[q] == F8::zero(),
            decreases self.ell_out - i,
        {
            out[i] = F8::zero();
            i = i + 1;
        }
        let mut b: usize = 0;
        while b < self.n_chunks
            invariant
                b <= self.n_chunks,
                self.wf(),
                n == self.rows().len(),
                bytes@.len() == self.n_chunks,
                out@.len() == self.ell_out,
                forall|q: int|
                    0 <= q < self.ell_out ==> #[trigger] out@[q] == self.applied(
                        bytes@,
                        b as nat,
                        q,
                    ),
            decreases self.n_chunks - b,
        {
            proof {
                lemma_pow2_pos(self.k_out as nat);
                self.lemma_entry(bytes@[b as int] as int, 0, b as int);
            }
            let row_off: usize = bytes[b] as usize * self.ell_out;
            let shift: usize = 8 * b;
            let mut i: usize = 0;
            while i < self.ell_out
                invariant
                    i <= self.ell_out,
                    b < self.n_chunks,
                    self.wf(),
                    n == self.rows().len(),
                    bytes@.len() == self.n_chunks,
                    row_off == bytes@[b as int] * self.ell_out,
                    shift == 8 * b,
                    out@.len() == self.ell_out,
                    forall|q: int|
                        0 <= q < i ==> #[trigger] out@[q] == self.applied(
                            bytes@,
                            b as nat + 1,
                            q,
                        ),
                    forall|q: int|
                        i <= q < self.ell_out ==> #[trigger] out@[q] == self.applied(
                            bytes@,
                            b as nat,
                            q,
                        ),
                decreases self.ell_out - i,
            {
                proof {
                    self.lemma_entry(bytes@[b as int] as int, i as int, b as int);
                }
                out[i] = out[i] + self.data[row_off + (i ^ shift)];
                i = i + 1;
            }
            b = b + 1;
        }
        assert(out@ =~= self.apply_spec(bytes@));
    }

    /// The row of the first byte, unshifted.
    fn copy_first_row(&self, bytes: &[u8], out: &mut [F8])
        requires
            self.wf(),
            bytes@.len() == self.n_chunks,
            old(out)@.len() == self.ell_out,
        ensures
            final(out)@.len() == self.ell_out,
            forall|q: int|
                0 <= q < self.ell_out ==> #[trigger] final(out)@[q] == self.applied(bytes@, 1, q),
    {
        let n: usize = self.data.len();
        proof {
            lemma_pow2_pos(self.k_in as nat);
            lemma_pow2_pos(self.k_out as nat);
            self.lemma_entry(bytes@[0] as int, 0, 0);
        }
        let row_off: usize = bytes[0] as usize * self.ell_out;
        let mut i: usize = 0;
        while i < self.ell_out
            invariant
                i <= self.ell_out,
                self.wf(),
                n == self.rows().len(),
                self.n_chunks >= 1,
                bytes@.len() == self.n_chunks,
                row_off == bytes@[0] * self.ell_out,
                out@.len() == self.ell_out,
                forall|q: int| 0 <= q < i ==> #[trigger] out@[q] == self.applied(bytes@, 1, q),
            decreases self.ell_out - i,
        {
            proof {
                self.lemma_entry(bytes@[0] as int, i as int, 0);
                lemma_shifted_position(i as int, 0, self.k_out as nat);
                lemma_add_rules8(self.rows()[row_off + i], F8::zero(), F8::zero(), F8::zero());
                reveal_with_fuel(InvNttTableSToV8Gf8::applied, 2);
            }
            out[i] = self.data[row_off + i];
            i = i + 1;
        }
    }

    /// Variant of `apply` in 16-byte chunks. The chunk-XOR encoding `(b >> 1)`
    /// plus odd/even within-chunk half-swap implements `π_b(i') = i' ⊕ 8b`.
    #[verifier::rlimit(60)]
    #[verifier::spinoff_prover]
    pub fn apply_neon_unchecked(&self, bytes: &[u8], out: &mut [F8])
        requires
            self.wf(),
            self.ell_out >= 16,
            bytes@.len() == self.n_chunks,
            old(out)@.len() == self.ell_out,
        ensures
            final(out)@ == self.apply_spec(bytes@),
    {
        let n: usize = self.data.len();
        let n128: usize = self.ell_out / 16;
        proof {
            lemma2_to64();
            if self.k_out < 4 {
                lemma_pow2_strictly_increases(self.k_out as nat, 4);
            }
            lemma_pow2_adds(4, (self.k_out - 4) as nat);
            lemma_pow2_pos(self.k_in as nat);
        }
        // b = 0: straight copy from row 0.
        self.copy_first_row(bytes, out);
        // b ≥ 1: XOR with table row[bytes[b]], permuted per (b >> 1, b & 1).
        let mut b: usize = 1;
        while b < self.n_chunks
            invariant
                1 <= b <= self.n_chunks,
                self.wf(),
                16 * n128 == self.ell_out,
                n == self.rows().len(),
                bytes@.len() == self.n_chunks,
                out@.len() == self.ell_out,
                forall|q: int|
                    0 <= q < self.ell_out ==> #[trigger] out@[q] == self.applied(
                        bytes@,
                        b as nat,
                        q,
                    ),
            decreases self.n_chunks - b,
        {
            proof {
                lemma_pow2_pos(self.k_out as nat);
                self.lemma_entry(bytes@[b as int] as int, 0, b as int);
            }
            let b_high: usize = b / 2;
            let b_odd = b % 2 != 0;
            let row_off: usize = bytes[b] as usize * self.ell_out;
            let mut c: usize = 0;
            while c < n128
                invariant
                    c <= n128,
                    1 <= b < self.n_chunks,
                    self.wf(),
                    16 * n128 == self.ell_out,
                    n == self.rows().len(),
                    bytes@.len() == self.n_chunks,
                    b_high == b / 2,
                    b_odd == (b % 2 != 0),
                    row_off == bytes@[b as int] * self.ell_out,
                    out@.len() == self.ell_out,
                    forall|q: int|
                        0 <= q < 16 * c ==> #[trigger] out@[q] == self.applied(
                            bytes@,
                            b as nat + 1,
                            q,
                        ),
                    forall|q: int|
                        16 * c <= q < self.ell_out ==> #[trigger] out@[q] == self.applied(
                            bytes@,
                            b as nat,
                            q,
                        ),
                decreases n128 - c,
            {
                let sc: usize = c ^ b_high;
                let mut r: usize = 0;
                while r < 16
                    invariant
                        r <= 16,
                        c < n128,
                        sc == c ^ b_high,
                        1 <= b < self.n_chunks,
                        self.wf(),
                        16 * n128 == self.ell_out,
                        n == self.rows().len(),
                        bytes@.len() == self.n_chunks,
                        b_high == b / 2,
                        b_odd == (b % 2 != 0),
                        row_off == bytes@[b as int] * self.ell_out,
                        out@.len() == self.ell_out,
                        forall|q: int|
                            0 <= q < 16 * c + r ==> #[trigger] out@[q] == self.applied(
                                bytes@,
                                b as nat + 1,
                                q,
                            ),
                        forall|q: int|
                            16 * c + r <= q < self.ell_out ==> #[trigger] out@[q] == self.applied(
                                bytes@,
                                b as nat,
                                q,
                            ),
                    decreases 16 - r,
                {
                    let i: usize = 16 * c + r;
                    let lane: usize = if b_odd {
                        (r + 8) % 16
                    } else {
                        r
                    };
                    proof {
                        self.lemma_entry(bytes@[b as int] as int, i as int, b as int);
                        lemma_shift_in_16(c as int, r as int, b as int, self.k_out as nat);
                        assert(shifted_position(i as int, 8 * b as int) == 16 * sc + lane);
                    }
                    out[i] = out[i] + self.data[row_off + 16 * sc + lane];
                    r = r + 1;
                }
                c = c + 1;
            }
            b = b + 1;
        }
        assert(out@ =~= self.apply_spec(bytes@));
    }

    /// Variant of `apply` in uniform 32-byte blocks, with the permutation of the
    /// 8-byte lanes of a block folded into one step: `i' ⊕ 8b` moves block `blk` to
    /// `blk ⊕ (b >> 2)` and lane `j` to `j ⊕ (b & 3)`.
    #[verifier::rlimit(60)]
    #[verifier::spinoff_prover]
    pub fn apply_avx2_unchecked(&self, bytes: &[u8], out: &mut [F8])
        requires
            self.wf(),
            self.ell_out >= 32,
            bytes@.len() == self.n_chunks,
            old(out)@.len() == self.ell_out,
        ensures
            final(out)@ == self.apply_spec(bytes@),
    {
        let n: usize = self.data.len();
        let n_blk: usize = self.ell_out / 32;
        proof {
            lemma2_to64();
            if self.k_out < 5 {
                lemma_pow2_strictly_increases(self.k_out as nat, 5);
            }
            lemma_pow2_adds(5, (self.k_out - 5) as nat);
            lemma_pow2_pos(self.k_in as nat);
        }
        self.copy_first_row(bytes, out);
        let mut b: usize = 1;
        while b < self.n_chunks
            invariant
                1 <= b <= self.n_chunks,
                self.wf(),
                32 * n_blk == self.ell_out,
                n == self.rows().len(),
                bytes@.len() == self.n_chunks,
                out@.len() == self.ell_out,
                forall|q: int|
                    0 <= q < self.ell_out ==> #[trigger] out@[q] == self.applied(
                        bytes@,
                        b as nat,
                        q,
                    ),
            decreases self.n_chunks - b,
        {
            proof {
                lemma_pow2_pos(self.k_out as nat);
                self.lemma_entry(bytes@[b as int] as int, 0, b as int);
            }
            let blk_x: usize = b / 4;
            let lane_x: usize = b % 4;
            let row_off: usize = bytes[b] as usize * self.ell_out;
            let mut blk: usize = 0;
            while blk < n_blk
                invariant
                    blk <= n_blk,
                    1 <= b < self.n_chunks,
                    self.wf(),
                    32 * n_blk == self.ell_out,
                    n == self.rows().len(),
                    bytes@.len() == self.n_chunks,
                    blk_x == b / 4,
                    lane_x == b % 4,
                    row_off == bytes@[b as int] * self.ell_out,
                    out@.len() == self.ell_out,
                    forall|q: int|
                        0 <= q < 32 * blk ==> #[trigger] out@[q] == self.applied(
                            bytes@,
                            b as nat + 1,
                            q,
                        ),
                    forall|q: int|
                        32 * blk <= q < self.ell_out ==> #[trigger] out@[q] == self.applied(
                            bytes@,
                            b as nat,
                            q,
                        ),
                decreases n_blk - blk,
            {
                let src: usize = blk ^ blk_x;
                let mut r: usize = 0;
                while r < 32
                    invariant
                        r <= 32,
                        blk < n_blk,
                        src == blk ^ blk_x,
                        1 <= b < self.n_chunks,
                        self.wf(),
                        32 * n_blk == self.ell_out,
                        n == self.rows().len(),
                        bytes@.len() == self.n_chunks,
                        blk_x == b / 4,
                        lane_x == b % 4,
                        row_off == bytes@[b as int] * self.ell_out,
                        out@.len() == self.ell_out,
                        forall|q: int|
                            0 <= q < 32 * blk + r ==> #[trigger] out@[q] == self.applied(
                                bytes@,
                                b as nat + 1,
                                q,
                            ),
                        forall|q: int|
                            32 * blk + r <= q < self.ell_out ==> #[trigger] out@[q] == self.applied(
                                bytes@,
                                b as nat,
                                q,
                            ),
                    decreases 32 - r,
                {
                    let i: usize = 32 * blk + r;
                    let lane: usize = (r / 8) ^ lane_x;
                    proof {
                        self.lemma_entry(bytes@[b as int] as int, i as int, b as int);
                        lemma_shift_in_32(blk as int, r as int, b as int, self.k_out as nat);
                        assert(shifted_position(i as int, 8 * b as int) == 32 * src + 8 * lane + r
                            % 8);
                    }
                    out[i] = out[i] + self.data[row_off + (32 * src + 8 * lane + r % 8)];
                    r = r + 1;
                }
                blk = blk + 1;
            }
            b = b + 1;
        }
        assert(out@ =~= self.apply_spec(bytes@));
    }

    /// Apply M to a single byte-packed S row, by the widest chunks that fit a row.
    #[inline]
    pub fn apply(&self, bytes: &[u8], out: &mut [F8])
        requires
            self.wf(),
            bytes@.len() == self.n_chunks,
            old(out)@.len() == self.ell_out,
        ensures
            final(out)@ == self.apply_spec(bytes@),
    {
        if self.ell_out >= 32 {
            self.apply_avx2_unchecked(bytes, out);
        } else if self.ell_out >= 16 {
            self.apply_neon_unchecked(bytes, out);
        } else {
            self.apply_scalar(bytes, out);
        }
    }
}

} // verus!
