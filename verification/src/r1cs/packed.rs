//! Block-diagonal products of packed witnesses.
//!
//! The blocks are handled in strips: the columns of a strip are transposed
//! into words that hold one bit per block, so that one pass over the matrix
//! serves the whole strip.
use vstd::arithmetic::power2::pow2;
use vstd::prelude::*;
use crate::bits::{
    bit64, bit8, lemma_bit64_ops, lemma_bit64_set, lemma_bit8_ops, transpose_64x64,
    transpose_8_u64s_to_64_bytes,
};
use crate::field::F128;
use crate::index::pow2_usize;
use crate::pcs::pack::{lemma_packed_len, packed_bit, unpacked, word_bit};
use crate::r1cs::{
    lemma_block_position, lemma_blocks, lemma_parity_ext, parity, SparseBinaryMatrix,
};
use crate::threads::current_num_threads;

verus! {

/// Number of blocks processed per matrix pass in the packed fast path.
const APPLY_STRIP: usize = 8;

/// `row_ptr` and `cols` are the rows of `m` one after the other: row `r` is
/// `cols[row_ptr[r]..row_ptr[r + 1]]`.
pub open spec fn csr_of(m: SparseBinaryMatrix, row_ptr: Seq<u32>, cols: Seq<u32>) -> bool {
    &&& row_ptr.len() == m.num_rows + 1
    &&& forall|r: int| 0 <= r <= m.num_rows ==> #[trigger] row_ptr[r] == m.nonzeros(r as nat)
    &&& cols.len() == m.nonzeros(m.num_rows as nat)
    &&& forall|r: int, j: int|
        0 <= r < m.num_rows && 0 <= j < m.rows@[r]@.len() ==> cols[m.nonzeros(r as nat) + j]
            == #[trigger] m.rows@[r]@[j]
}

/// Flatten `m.rows` into CSR arrays: row `r`'s column
/// indices are `cols[row_ptr[r] as usize .. row_ptr[r+1] as usize]`. One
/// sequential pass; removes the per-row indirection from the hot loops.
fn flatten_csr(m: &SparseBinaryMatrix) -> (r: (Vec<u32>, Vec<u32>))
    requires
        m.wf(),
        m.num_cols <= u32::MAX,
        m.nonzeros(m.num_rows as nat) <= u32::MAX,
    ensures
        csr_of(*m, r.0@, r.1@),
{
    let n: usize = m.rows.len();
    let mut row_ptr: Vec<u32> = Vec::new();
    let mut cols: Vec<u32> = Vec::new();
    row_ptr.push(0u32);
    let mut r: usize = 0;
    while r < n
        invariant
            r <= n,
            n == m.rows@.len(),
            m.wf(),
            m.num_cols <= u32::MAX,
            m.nonzeros(n as nat) <= u32::MAX,
            row_ptr@.len() == r + 1,
            forall|q: int| 0 <= q <= r ==> #[trigger] row_ptr@[q] == m.nonzeros(q as nat),
            cols@.len() == m.nonzeros(r as nat),
            forall|q: int, j: int|
                0 <= q < r && 0 <= j < m.rows@[q]@.len() ==> cols@[m.nonzeros(q as nat) + j]
                    == #[trigger] m.rows@[q]@[j],
        decreases n - r,
    {
        let row = &m.rows[r];
        let len: usize = row.len();
        let ghost done = cols@;
        proof {
            lemma_nonzeros_grow(*m, (r + 1) as nat, n as nat);
        }
        let mut j: usize = 0;
        while j < len
            invariant
                j <= len,
                r < n,
                n == m.rows@.len(),
                m.wf(),
                m.num_cols <= u32::MAX,
                row == m.rows@[r as int],
                len == row@.len(),
                cols@.len() == done.len() + j,
                forall|q: int| 0 <= q < done.len() ==> #[trigger] cols@[q] == done[q],
                forall|q: int| 0 <= q < j ==> cols@[done.len() + q] == #[trigger] row@[q],
            decreases len - j,
        {
            assert(m.rows@[r as int]@[j as int] < m.num_cols);
            cols.push(row[j] as u32);
            j = j + 1;
        }
        proof {
            assert forall|q: int, j: int| 0 <= q < r + 1 && 0 <= j < m.rows@[q]@.len() implies cols@[
            m.nonzeros(q as nat) + j] == #[trigger] m.rows@[q]@[j] by {
                if q < r {
                    lemma_nonzeros_grow(*m, (q + 1) as nat, r as nat);
                    assert(done[m.nonzeros(q as nat) + j] == m.rows@[q]@[j]);
                }
            }
        }
        row_ptr.push(cols.len() as u32);
        r = r + 1;
    }
    (row_ptr, cols)
}

proof fn lemma_nonzeros_grow(m: SparseBinaryMatrix, a: nat, b: nat)
    requires
        a <= b,
    ensures
        m.nonzeros(a) <= m.nonzeros(b),
    decreases b,
{
    if a < b {
        lemma_nonzeros_grow(m, a, (b - 1) as nat);
    }
}

/// Row `r` of the CSR arrays.
#[inline]
fn csr_row(row_ptr: &Vec<u32>, cols: &Vec<u32>, r: usize, Ghost(m): Ghost<SparseBinaryMatrix>) -> (b: (
    usize,
    usize,
))
    requires
        csr_of(m, row_ptr@, cols@),
        m.wf(),
        r < m.num_rows,
    ensures
        b.0 == m.nonzeros(r as nat),
        b.1 == b.0 + m.rows@[r as int]@.len(),
        b.1 <= cols@.len(),
        forall|t: int|
            b.0 <= t < b.1 ==> #[trigger] cols@[t] == m.rows@[r as int]@[t - b.0] && cols@[t]
                < m.num_cols,
{
    proof {
        lemma_nonzeros_grow(m, (r + 1) as nat, m.num_rows as nat);
        assert forall|t: int|
            m.nonzeros(r as nat) <= t < m.nonzeros((r + 1) as nat) implies #[trigger] cols@[t]
            == m.rows@[r as int]@[t - m.nonzeros(r as nat)] && cols@[t] < m.num_cols by {
            let j = t - m.nonzeros(r as nat);
            assert(cols@[m.nonzeros(r as nat) + j] == m.rows@[r as int]@[j]);
        }
        assert(row_ptr@[r as int] == m.nonzeros(r as nat));
        assert(row_ptr@[r + 1] == m.nonzeros((r + 1) as nat));
    }
    (row_ptr[r] as usize, row_ptr[r + 1] as usize)
}

/// Bit `global_bit` of a packed witness.
#[inline]
pub fn get_bit_packed(z_packed: &[F128], global_bit: usize) -> (b: bool)
    requires
        global_bit < 128 * z_packed@.len(),
    ensures
        b == packed_bit(z_packed@, global_bit as int),
{
    let i_packed: usize = global_bit / 128;
    let local: usize = global_bit % 128;
    if local < 64 {
        word_bit(z_packed[i_packed].lo, local)
    } else {
        word_bit(z_packed[i_packed].hi, local - 64)
    }
}

/// Set bit `global_bit` of a packed witness.
#[inline]
pub fn set_bit_packed(z_packed: &mut Vec<F128>, global_bit: usize)
    requires
        global_bit < 128 * old(z_packed)@.len(),
    ensures
        final(z_packed)@.len() == old(z_packed)@.len(),
        forall|i: int|
            0 <= i < 128 * old(z_packed)@.len() ==> #[trigger] packed_bit(final(z_packed)@, i) == (i
                == global_bit || packed_bit(old(z_packed)@, i)),
{
    let ghost before = z_packed@;
    let i_packed: usize = global_bit / 128;
    let local: usize = global_bit % 128;
    let e = z_packed[i_packed];
    if local < 64 {
        z_packed[i_packed] = F128 { lo: e.lo | (1u64 << (local as u64)), hi: e.hi };
    } else {
        z_packed[i_packed] = F128 { lo: e.lo, hi: e.hi | (1u64 << ((local - 64) as u64)) };
    }
    proof {
        assert forall|i: int| 0 <= i < 128 * before.len() implies #[trigger] packed_bit(
            z_packed@,
            i,
        ) == (i == global_bit || packed_bit(before, i)) by {
            if i / 128 == i_packed {
                let t = i % 128;
                if local < 64 && t < 64 {
                    lemma_bit64_set(e.lo, local as int, t);
                } else if local >= 64 && t >= 64 {
                    lemma_bit64_set(e.hi, local - 64, t - 64);
                }
            }
        }
    }
}

/// Word `w` of a packed witness: bits `64·w` to `64·w + 63`.
#[inline]
fn packed_word(z: &[F128], w: usize) -> (x: u64)
    requires
        w < 2 * z@.len(),
    ensures
        forall|t: int| 0 <= t < 64 ==> #[trigger] bit64(x, t) == packed_bit(z@, 64 * w + t),
{
    let x = if w % 2 == 0 {
        z[w / 2].lo
    } else {
        z[w / 2].hi
    };
    proof {
        assert forall|t: int| 0 <= t < 64 implies #[trigger] bit64(x, t) == packed_bit(
            z@,
            64 * w + t,
        ) by {
            let g = 64 * w + t;
            assert(g / 128 == (w / 2) as int);
            assert(g % 128 == 64 * (w % 2) + t);
        }
    }
    x
}

/// The positions of a block of `k = 128·f` bits.
proof fn lemma_block_bounds(n_outer: int, f: int, b: int)
    requires
        0 <= b < n_outer,
        0 < f,
    ensures
        0 <= b * f,
        b * f + f <= n_outer * f,
        n_outer <= n_outer * f,
        b * (128 * f) == 128 * (b * f),
        0 <= b * (128 * f),
        b * (128 * f) + 128 * f <= 128 * (n_outer * f),
        (b + 1) * f == b * f + f,
        (b + 1) * (128 * f) == b * (128 * f) + 128 * f,
{
    assert(0 <= b * f) by (nonlinear_arith)
        requires
            0 <= b,
            0 < f,
    ;
    assert(b * f + f <= n_outer * f) by (nonlinear_arith)
        requires
            b + 1 <= n_outer,
            0 < f,
    ;
    assert(n_outer <= n_outer * f) by (nonlinear_arith)
        requires
            0 < n_outer,
            0 < f,
    ;
    assert(b * (128 * f) == 128 * (b * f)) by (nonlinear_arith);
    assert((b + 1) * f == b * f + f) by (nonlinear_arith);
    assert((b + 1) * (128 * f) == b * (128 * f) + 128 * f) by (nonlinear_arith);
}

/// Rows `r0` to `r0 + 63` of the product of block `b`.
fn row_word(
    row_ptr: &Vec<u32>,
    cols: &Vec<u32>,
    z: &[F128],
    block: usize,
    f128_per_block: usize,
    r0: usize,
    Ghost(m): Ghost<SparseBinaryMatrix>,
    Ghost(n_outer): Ghost<int>,
) -> (x: u64)
    requires
        csr_of(m, row_ptr@, cols@),
        m.square((128 * f128_per_block) as nat),
        0 < f128_per_block,
        block < n_outer,
        z@.len() == n_outer * f128_per_block,
        128 * z@.len() <= usize::MAX,
        r0 + 64 <= 128 * f128_per_block,
    ensures
        forall|t: int|
            0 <= t < 64 ==> #[trigger] bit64(x, t) == m.block_bit(
                unpacked(z@),
                128 * f128_per_block,
                block * (128 * f128_per_block) + r0 + t,
            ),
{
    proof {
        lemma_block_bounds(n_outer, f128_per_block as int, block as int);
    }
    let k: usize = 128 * f128_per_block;
    let base: usize = block * k;
    let mut x: u64 = 0;
    let mut t: usize = 0;
    proof {
        assert forall|q: int| 0 <= q < 64 implies !(#[trigger] bit64(x, q)) by {
            lemma_bit64_ops(0, 0, q);
        }
    }
    while t < 64
        invariant
            t <= 64,
            csr_of(m, row_ptr@, cols@),
            m.square(k as nat),
            k == 128 * f128_per_block,
            0 < f128_per_block,
            block < n_outer,
            base == block * k,
            base + k <= 128 * z@.len(),
            128 * z@.len() <= usize::MAX,
            r0 + 64 <= k,
            forall|q: int|
                0 <= q < t ==> #[trigger] bit64(x, q) == m.block_bit(
                    unpacked(z@),
                    k as int,
                    base + r0 + q,
                ),
            forall|q: int| t <= q < 64 ==> !(#[trigger] bit64(x, q)),
        decreases 64 - t,
    {
        let r: usize = r0 + t;
        let (lo, hi) = csr_row(row_ptr, cols, r, Ghost(m));
        let ghost row = m.rows@[r as int]@;
        let ghost f = |j: int| unpacked(z@)[base + row[j]];
        let mut acc = false;
        let mut c: usize = lo;
        while c < hi
            invariant
                lo <= c <= hi,
                hi == lo + row.len(),
                hi <= cols@.len(),
                forall|t: int|
                    lo <= t < hi ==> #[trigger] cols@[t] == row[t - lo] && cols@[t] < k,
                base + k <= 128 * z@.len(),
                128 * z@.len() <= usize::MAX,
                f == (|j: int| unpacked(z@)[base + row[j]]),
                acc == parity((c - lo) as nat, f),
            decreases hi - c,
        {
            let col: usize = cols[c] as usize;
            assert(f(c - lo) == packed_bit(z@, base + col));
            acc = acc != get_bit_packed(z, base + col);
            c = c + 1;
        }
        proof {
            lemma_block_position(block as int, k as int, r as int);
            assert(m.block_bit(unpacked(z@), k as int, base + r) == parity(row.len(), f)) by {
                lemma_parity_ext(
                    row.len(),
                    |j: int| unpacked(z@)[((base + r) / (k as int)) * k + m.rows@[(base + r) % (k as int)]@[j]],
                    f,
                );
            }
            assert forall|q: int| 0 <= q < 64 implies #[trigger] bit64(x | (1u64 << (t as u64)), q)
                == (q == t || bit64(x, q)) by {
                lemma_bit64_set(x, t as int, q);
            }
        }
        if acc {
            x = x | (1u64 << (t as u64));
        }
        t = t + 1;
    }
    x
}

/// Bits `128·e` to `128·e + 127` of the output are those of the product.
spec fn element_done(m: SparseBinaryMatrix, z: Seq<F128>, out: Seq<F128>, k: int, e: int) -> bool {
    forall|i: int|
        128 * e <= i < 128 * e + 128 ==> #[trigger] packed_bit(out, i) == m.block_bit(
            unpacked(z),
            k,
            i,
        )
}

proof fn lemma_element_done(m: SparseBinaryMatrix, z: Seq<F128>, out: Seq<F128>, k: int, e: int)
    requires
        forall|t: int|
            0 <= t < 64 ==> #[trigger] bit64(out[e].lo, t) == m.block_bit(unpacked(z), k, 128 * e + t),
        forall|t: int|
            0 <= t < 64 ==> #[trigger] bit64(out[e].hi, t) == m.block_bit(
                unpacked(z),
                k,
                128 * e + 64 + t,
            ),
    ensures
        element_done(m, z, out, k, e),
{
    assert forall|i: int| 128 * e <= i < 128 * e + 128 implies #[trigger] packed_bit(out, i)
        == m.block_bit(unpacked(z), k, i) by {
        let t = i - 128 * e;
        assert(i / 128 == e && i % 128 == t);
        if t < 64 {
            assert(bit64(out[e].lo, t) == m.block_bit(unpacked(z), k, 128 * e + t));
        } else {
            assert(bit64(out[e].hi, t - 64) == m.block_bit(unpacked(z), k, 128 * e + 64 + (t - 64)));
        }
    }
}

/// An element that is not touched stays done.
proof fn lemma_element_kept(
    m: SparseBinaryMatrix,
    z: Seq<F128>,
    before: Seq<F128>,
    after: Seq<F128>,
    k: int,
    e: int,
)
    requires
        element_done(m, z, before, k, e),
        before[e] == after[e],
    ensures
        element_done(m, z, after, k, e),
{
    assert forall|i: int| 128 * e <= i < 128 * e + 128 implies #[trigger] packed_bit(after, i)
        == m.block_bit(unpacked(z), k, i) by {
        assert(i / 128 == e);
        assert(packed_bit(before, i) == m.block_bit(unpacked(z), k, i));
    }
}

/// Single-block CSR kernel (tail strips whose block count < APPLY_STRIP).
fn apply_one_block_csr(
    row_ptr: &Vec<u32>,
    cols: &Vec<u32>,
    z: &[F128],
    out: &mut Vec<F128>,
    block: usize,
    f128_per_block: usize,
    Ghost(m): Ghost<SparseBinaryMatrix>,
    Ghost(n_outer): Ghost<int>,
)
    requires
        csr_of(m, row_ptr@, cols@),
        m.square((128 * f128_per_block) as nat),
        0 < f128_per_block,
        block < n_outer,
        z@.len() == n_outer * f128_per_block,
        old(out)@.len() == z@.len(),
        128 * z@.len() <= usize::MAX,
    ensures
        final(out)@.len() == old(out)@.len(),
        forall|e: int|
            block * f128_per_block <= e < block * f128_per_block + f128_per_block
                ==> #[trigger] element_done(m, z@, final(out)@, 128 * f128_per_block, e),
        forall|e: int|
            0 <= e < old(out)@.len() && !(block * f128_per_block <= e < block * f128_per_block
                + f128_per_block) ==> #[trigger] final(out)@[e] == old(out)@[e],
{
    proof {
        lemma_block_bounds(n_outer, f128_per_block as int, block as int);
    }
    let ghost start = out@;
    let first: usize = block * f128_per_block;
    let mut i: usize = 0;
    while i < f128_per_block
        invariant
            i <= f128_per_block,
            csr_of(m, row_ptr@, cols@),
            m.square((128 * f128_per_block) as nat),
            0 < f128_per_block,
            block < n_outer,
            z@.len() == n_outer * f128_per_block,
            out@.len() == z@.len(),
            start.len() == z@.len(),
            128 * z@.len() <= usize::MAX,
            first == block * f128_per_block,
            first + f128_per_block <= z@.len(),
            block * (128 * f128_per_block) == 128 * first,
            forall|e: int|
                first <= e < first + i ==> #[trigger] element_done(
                    m,
                    z@,
                    out@,
                    128 * f128_per_block,
                    e,
                ),
            forall|e: int|
                0 <= e < z@.len() && !(first <= e < first + i) ==> #[trigger] out@[e] == start[e],
        decreases f128_per_block - i,
    {
        let ghost before = out@;
        let lo = row_word(row_ptr, cols, z, block, f128_per_block, 128 * i, Ghost(m), Ghost(n_outer));
        let hi = row_word(
            row_ptr,
            cols,
            z,
            block,
            f128_per_block,
            128 * i + 64,
            Ghost(m),
            Ghost(n_outer),
        );
        out[first + i] = F128 { lo, hi };
        proof {
            let k = 128 * f128_per_block;
            let e = first + i;
            assert forall|t: int| 0 <= t < 64 implies #[trigger] bit64(lo, t) == m.block_bit(
                unpacked(z@),
                k,
                128 * e + t,
            ) by {
                assert(128 * e + t == block * k + (128 * i) + t);
            }
            assert forall|t: int| 0 <= t < 64 implies #[trigger] bit64(hi, t) == m.block_bit(
                unpacked(z@),
                k,
                128 * e + 64 + t,
            ) by {
                assert(128 * e + 64 + t == block * k + (128 * i + 64) + t);
            }
            lemma_element_done(m, z@, out@, k, e);
            assert forall|q: int| first <= q < first + i implies #[trigger] element_done(
                m,
                z@,
                out@,
                k,
                q,
            ) by {
                lemma_element_kept(m, z@, before, out@, k, q);
            }
        }
        i = i + 1;
    }
}

/// Bit `s` of the exclusive or of the columns from `lo` on.
spec fn strip_fn8(colbits: Seq<u8>, cols: Seq<u32>, lo: int, s: int) -> spec_fn(int) -> bool {
    |t: int| bit8(colbits[cols[lo + t] as int], s)
}

spec fn strip_fn64(colbits: Seq<u64>, cols: Seq<u32>, lo: int, s: int) -> spec_fn(int) -> bool {
    |t: int| bit64(colbits[cols[lo + t] as int], s)
}

/// Word whose bit `t` is bit `s` of byte `base + t`.
fn gather_bits(rowbits: &Vec<u8>, base: usize, s: usize) -> (x: u64)
    requires
        base + 64 <= rowbits@.len(),
        s < 8,
    ensures
        forall|t: int| 0 <= t < 64 ==> #[trigger] bit64(x, t) == bit8(rowbits@[base + t], s as int),
{
    let n: usize = rowbits.len();
    let mut x: u64 = 0;
    let mut t: usize = 0;
    proof {
        assert forall|q: int| 0 <= q < 64 implies !(#[trigger] bit64(x, q)) by {
            lemma_bit64_ops(0, 0, q);
        }
    }
    while t < 64
        invariant
            t <= 64,
            n == rowbits@.len(),
            base + 64 <= n,
            s < 8,
            forall|q: int|
                0 <= q < t ==> #[trigger] bit64(x, q) == bit8(rowbits@[base + q], s as int),
            forall|q: int| t <= q < 64 ==> !(#[trigger] bit64(x, q)),
        decreases 64 - t,
    {
        proof {
            assert forall|q: int| 0 <= q < 64 implies #[trigger] bit64(x | (1u64 << (t as u64)), q)
                == (q == t || bit64(x, q)) by {
                lemma_bit64_set(x, t as int, q);
            }
        }
        if (rowbits[base + t] >> (s as u8)) & 1 == 1 {
            x = x | (1u64 << (t as u64));
        }
        t = t + 1;
    }
    x
}

/// The columns of eight blocks as bytes: bit `s` of byte `j` is bit `j` of
/// block `start + s`.
fn strip_columns8(z: &[F128], start: usize, f128_per_block: usize, Ghost(n_outer): Ghost<int>) -> (colbits:
    Vec<u8>)
    requires
        0 < f128_per_block,
        start + 8 <= n_outer,
        z@.len() == n_outer * f128_per_block,
        128 * z@.len() <= usize::MAX,
    ensures
        colbits@.len() == 128 * f128_per_block,
        forall|j: int, s: int|
            0 <= j < 128 * f128_per_block && 0 <= s < 8 ==> #[trigger] bit8(colbits@[j], s)
                == packed_bit(z@, (start + s) * (128 * f128_per_block) + j),
{
    proof {
        lemma_block_bounds(n_outer, f128_per_block as int, start as int);
    }
    let words: usize = 2 * f128_per_block;
    let ghost k = 128 * f128_per_block;
    let mut colbits: Vec<u8> = Vec::new();
    let mut w: usize = 0;
    while w < words
        invariant
            w <= words,
            words == 2 * f128_per_block,
            0 < f128_per_block,
            start + 8 <= n_outer,
            z@.len() == n_outer * f128_per_block,
            128 * z@.len() <= usize::MAX,
            k == 128 * f128_per_block,
            colbits@.len() == 64 * w,
            forall|j: int, s: int|
                0 <= j < 64 * w && 0 <= s < 8 ==> #[trigger] bit8(colbits@[j], s) == packed_bit(
                    z@,
                    (start + s) * k + j,
                ),
        decreases words - w,
    {
        let mut lanes: [u64; 8] = [0u64; 8];
        let mut s: usize = 0;
        while s < 8
            invariant
                s <= 8,
                w < words,
                words == 2 * f128_per_block,
                0 < f128_per_block,
                start + 8 <= n_outer,
                z@.len() == n_outer * f128_per_block,
                128 * z@.len() <= usize::MAX,
                k == 128 * f128_per_block,
                forall|q: int, t: int|
                    0 <= q < s && 0 <= t < 64 ==> #[trigger] bit64(lanes@[q], t) == packed_bit(
                        z@,
                        (start + q) * k + 64 * w + t,
                    ),
            decreases 8 - s,
        {
            proof {
                lemma_block_bounds(n_outer, f128_per_block as int, start + s);
            }
            let at: usize = (start + s) * f128_per_block;
            let x = packed_word(z, 2 * at + w);
            proof {
                assert forall|t: int| 0 <= t < 64 implies #[trigger] bit64(x, t) == packed_bit(
                    z@,
                    (start + s) * k + 64 * w + t,
                ) by {
                    assert(64 * (2 * at + w) + t == (start + s) * k + 64 * w + t);
                }
            }
            lanes[s] = x;
            s = s + 1;
        }
        let mut buf: [u8; 64] = [0u8; 64];
        transpose_8_u64s_to_64_bytes(&lanes, &mut buf);
        let mut t: usize = 0;
        while t < 64
            invariant
                t <= 64,
                k == 128 * f128_per_block,
                colbits@.len() == 64 * w + t,
                forall|q: int, t: int|
                    0 <= q < 8 && 0 <= t < 64 ==> #[trigger] bit64(lanes@[q], t) == packed_bit(
                        z@,
                        (start + q) * k + 64 * w + t,
                    ),
                forall|j: int, r: int|
                    0 <= j < 64 && 0 <= r < 8 ==> bit8(#[trigger] buf@[j], r) == bit64(
                        #[trigger] lanes@[r],
                        j,
                    ),
                forall|j: int, s: int|
                    0 <= j < 64 * w + t && 0 <= s < 8 ==> #[trigger] bit8(colbits@[j], s)
                        == packed_bit(z@, (start + s) * k + j),
            decreases 64 - t,
        {
            let byte: u8 = buf[t];
            proof {
                assert forall|s: int| 0 <= s < 8 implies #[trigger] bit8(byte, s) == packed_bit(
                    z@,
                    (start + s) * k + (64 * w + t),
                ) by {
                    assert(bit8(buf@[t as int], s) == bit64(lanes@[s], t as int));
                    assert((start + s) * k + 64 * w + t == (start + s) * k + (64 * w + t));
                }
            }
            colbits.push(byte);
            t = t + 1;
        }
        w = w + 1;
    }
    colbits
}

/// Apply `M_0` (CSR form) to APPLY_STRIP = 8 consecutive blocks at once.
///
/// Phase 1 transposes the strip's witness to column-major bytes:
/// `colbits[j]` holds column j's bit for all 8 blocks (bit s = block s).
/// Phase 2 streams the matrix once for the whole strip; each nonzero is a
/// single byte load + XOR.
fn apply_strip_csr(
    row_ptr: &Vec<u32>,
    cols: &Vec<u32>,
    z: &[F128],
    out: &mut Vec<F128>,
    start: usize,
    f128_per_block: usize,
    Ghost(m): Ghost<SparseBinaryMatrix>,
    Ghost(n_outer): Ghost<int>,
)
    requires
        csr_of(m, row_ptr@, cols@),
        m.square((128 * f128_per_block) as nat),
        0 < f128_per_block,
        start + 8 <= n_outer,
        z@.len() == n_outer * f128_per_block,
        old(out)@.len() == z@.len(),
        128 * z@.len() <= usize::MAX,
    ensures
        final(out)@.len() == old(out)@.len(),
        forall|e: int|
            start * f128_per_block <= e < (start + 8) * f128_per_block ==> #[trigger] element_done(
                m,
                z@,
                final(out)@,
                128 * f128_per_block,
                e,
            ),
        forall|e: int|
            0 <= e < old(out)@.len() && !(start * f128_per_block <= e < (start + 8)
                * f128_per_block) ==> #[trigger] final(out)@[e] == old(out)@[e],
{
    proof {
        lemma_block_bounds(n_outer, f128_per_block as int, start as int);
    }
    let k: usize = 128 * f128_per_block;
    let colbits = strip_columns8(z, start, f128_per_block, Ghost(n_outer));
    let mut rowbits: Vec<u8> = Vec::new();
    let mut r: usize = 0;
    while r < k
        invariant
            r <= k,
            k == 128 * f128_per_block,
            csr_of(m, row_ptr@, cols@),
            m.square(k as nat),
            colbits@.len() == k,
            start + 8 <= n_outer,
            z@.len() == n_outer * f128_per_block,
            0 < f128_per_block,
            forall|j: int, s: int|
                0 <= j < k && 0 <= s < 8 ==> #[trigger] bit8(colbits@[j], s) == packed_bit(
                    z@,
                    (start + s) * k + j,
                ),
            rowbits@.len() == r,
            forall|q: int, s: int|
                0 <= q < r && 0 <= s < 8 ==> #[trigger] bit8(rowbits@[q], s) == m.block_bit(
                    unpacked(z@),
                    k as int,
                    (start + s) * k + q,
                ),
        decreases k - r,
    {
        let (lo, hi) = csr_row(row_ptr, cols, r, Ghost(m));
        let mut x: u8 = 0;
        let mut c: usize = lo;
        proof {
            assert forall|s: int| 0 <= s < 8 implies #[trigger] bit8(x, s) == parity(
                0,
                strip_fn8(colbits@, cols@, lo as int, s),
            ) by {
                lemma_bit8_ops(0, 0, 0, s);
            }
        }
        while c < hi
            invariant
                lo <= c <= hi,
                hi <= cols@.len(),
                colbits@.len() == k,
                forall|t: int| lo <= t < hi ==> #[trigger] cols@[t] < k,
                forall|s: int|
                    0 <= s < 8 ==> #[trigger] bit8(x, s) == parity(
                        (c - lo) as nat,
                        strip_fn8(colbits@, cols@, lo as int, s),
                    ),
            decreases hi - c,
        {
            let b: u8 = colbits[cols[c] as usize];
            proof {
                assert forall|s: int| 0 <= s < 8 implies #[trigger] bit8(x ^ b, s) == parity(
                    (c + 1 - lo) as nat,
                    strip_fn8(colbits@, cols@, lo as int, s),
                ) by {
                    lemma_bit8_ops(x, b, 0, s);
                    assert(bit8(x, s) == parity(
                        (c - lo) as nat,
                        strip_fn8(colbits@, cols@, lo as int, s),
                    ));
                }
            }
            x = x ^ b;
            c = c + 1;
        }
        proof {
            assert forall|s: int| 0 <= s < 8 implies #[trigger] bit8(x, s) == m.block_bit(
                unpacked(z@),
                k as int,
                (start + s) * k + r,
            ) by {
                let row = m.rows@[r as int]@;
                lemma_block_bounds(n_outer, f128_per_block as int, start + s);
                lemma_block_position(start + s, k as int, r as int);
                let f = strip_fn8(colbits@, cols@, lo as int, s);
                let i = (start + s) * k + r;
                let g = |j: int| unpacked(z@)[(i / (k as int)) * k + m.rows@[i % (k as int)]@[j]];
                assert forall|j: int| 0 <= j < row.len() implies #[trigger] f(j) == g(j) by {
                    assert(cols@[lo + j] == row[lo + j - lo]);
                    let c = row[j] as int;
                    assert(bit8(colbits@[c], s) == packed_bit(z@, (start + s) * k + c));
                }
                lemma_parity_ext(row.len(), f, g);
            }
        }
        rowbits.push(x);
        r = r + 1;
    }
    let ghost before = out@;
    let mut s: usize = 0;
    while s < 8
        invariant
            s <= 8,
            k == 128 * f128_per_block,
            0 < f128_per_block,
            start + 8 <= n_outer,
            z@.len() == n_outer * f128_per_block,
            128 * z@.len() <= usize::MAX,
            out@.len() == z@.len(),
            before.len() == z@.len(),
            rowbits@.len() == k,
            forall|q: int, s: int|
                0 <= q < k && 0 <= s < 8 ==> #[trigger] bit8(rowbits@[q], s) == m.block_bit(
                    unpacked(z@),
                    k as int,
                    (start + s) * k + q,
                ),
            forall|e: int|
                start * f128_per_block <= e < (start + s) * f128_per_block
                    ==> #[trigger] element_done(m, z@, out@, k as int, e),
            forall|e: int|
                0 <= e < z@.len() && !(start * f128_per_block <= e < (start + s) * f128_per_block)
                    ==> #[trigger] out@[e] == before[e],
        decreases 8 - s,
    {
        proof {
            lemma_block_bounds(n_outer, f128_per_block as int, start + s);
            assert(start * f128_per_block <= (start + s) * f128_per_block) by (nonlinear_arith)
                requires
                    0 <= s,
                    0 <= f128_per_block,
            ;
        }
        let first: usize = (start + s) * f128_per_block;
        let mut i: usize = 0;
        while i < f128_per_block
            invariant
                i <= f128_per_block,
                s < 8,
                k == 128 * f128_per_block,
                z@.len() == n_outer * f128_per_block,
                128 * z@.len() <= usize::MAX,
                first == (start + s) * f128_per_block,
                first + f128_per_block <= z@.len(),
                (start + s) * k == 128 * first,
                start * f128_per_block <= first,
                out@.len() == z@.len(),
                before.len() == z@.len(),
                rowbits@.len() == k,
                forall|q: int, s: int|
                    0 <= q < k && 0 <= s < 8 ==> #[trigger] bit8(rowbits@[q], s) == m.block_bit(
                        unpacked(z@),
                        k as int,
                        (start + s) * k + q,
                    ),
                forall|e: int|
                    start * f128_per_block <= e < first + i ==> #[trigger] element_done(
                        m,
                        z@,
                        out@,
                        k as int,
                        e,
                    ),
                forall|e: int|
                    0 <= e < z@.len() && !(start * f128_per_block <= e < first + i)
                        ==> #[trigger] out@[e] == before[e],
            decreases f128_per_block - i,
        {
            let ghost prev = out@;
            let lo = gather_bits(&rowbits, 128 * i, s);
            let hi = gather_bits(&rowbits, 128 * i + 64, s);
            out[first + i] = F128 { lo, hi };
            proof {
                let e = first + i;
                assert forall|t: int| 0 <= t < 64 implies #[trigger] bit64(lo, t) == m.block_bit(
                    unpacked(z@),
                    k as int,
                    128 * e + t,
                ) by {
                    assert(bit8(rowbits@[128 * i + t], s as int) == m.block_bit(
                        unpacked(z@),
                        k as int,
                        (start + s) * k + (128 * i + t),
                    ));
                    assert((start + s) * k + (128 * i + t) == 128 * e + t);
                }
                assert forall|t: int| 0 <= t < 64 implies #[trigger] bit64(hi, t) == m.block_bit(
                    unpacked(z@),
                    k as int,
                    128 * e + 64 + t,
                ) by {
                    assert(bit8(rowbits@[128 * i + 64 + t], s as int) == m.block_bit(
                        unpacked(z@),
                        k as int,
                        (start + s) * k + (128 * i + 64 + t),
                    ));
                    assert((start + s) * k + (128 * i + 64 + t) == 128 * e + 64 + t);
                }
                lemma_element_done(m, z@, out@, k as int, e);
                assert forall|q: int|
                    start * f128_per_block <= q < first + i implies #[trigger] element_done(
                    m,
                    z@,
                    out@,
                    k as int,
                    q,
                ) by {
                    lemma_element_kept(m, z@, prev, out@, k as int, q);
                }
            }
            i = i + 1;
        }
        s = s + 1;
    }
}

/// The columns of 64 blocks as words: bit `s` of word `j` is bit `j` of block
/// `start + s`.
fn strip_columns64(z: &[F128], start: usize, f128_per_block: usize, Ghost(n_outer): Ghost<int>) -> (colbits:
    Vec<u64>)
    requires
        0 < f128_per_block,
        start + 64 <= n_outer,
        z@.len() == n_outer * f128_per_block,
        128 * z@.len() <= usize::MAX,
    ensures
        colbits@.len() == 128 * f128_per_block,
        forall|j: int, s: int|
            0 <= j < 128 * f128_per_block && 0 <= s < 64 ==> #[trigger] bit64(colbits@[j], s)
                == packed_bit(z@, (start + s) * (128 * f128_per_block) + j),
{
    proof {
        lemma_block_bounds(n_outer, f128_per_block as int, start as int);
    }
    let words: usize = 2 * f128_per_block;
    let ghost k = 128 * f128_per_block;
    let mut colbits: Vec<u64> = Vec::new();
    let mut w: usize = 0;
    while w < words
        invariant
            w <= words,
            words == 2 * f128_per_block,
            0 < f128_per_block,
            start + 64 <= n_outer,
            z@.len() == n_outer * f128_per_block,
            128 * z@.len() <= usize::MAX,
            k == 128 * f128_per_block,
            colbits@.len() == 64 * w,
            forall|j: int, s: int|
                0 <= j < 64 * w && 0 <= s < 64 ==> #[trigger] bit64(colbits@[j], s) == packed_bit(
                    z@,
                    (start + s) * k + j,
                ),
        decreases words - w,
    {
        let mut lanes: [u64; 64] = [0u64; 64];
        let mut s: usize = 0;
        while s < 64
            invariant
                s <= 64,
                w < words,
                words == 2 * f128_per_block,
                0 < f128_per_block,
                start + 64 <= n_outer,
                z@.len() == n_outer * f128_per_block,
                128 * z@.len() <= usize::MAX,
                k == 128 * f128_per_block,
                forall|q: int, t: int|
                    0 <= q < s && 0 <= t < 64 ==> #[trigger] bit64(lanes@[q], t) == packed_bit(
                        z@,
                        (start + q) * k + 64 * w + t,
                    ),
            decreases 64 - s,
        {
            proof {
                lemma_block_bounds(n_outer, f128_per_block as int, start + s);
            }
            let at: usize = (start + s) * f128_per_block;
            let x = packed_word(z, 2 * at + w);
            proof {
                assert forall|t: int| 0 <= t < 64 implies #[trigger] bit64(x, t) == packed_bit(
                    z@,
                    (start + s) * k + 64 * w + t,
                ) by {
                    assert(64 * (2 * at + w) + t == (start + s) * k + 64 * w + t);
                }
            }
            lanes[s] = x;
            s = s + 1;
        }
        let ghost gathered = lanes@;
        transpose_64x64(&mut lanes);
        let mut t: usize = 0;
        while t < 64
            invariant
                t <= 64,
                k == 128 * f128_per_block,
                colbits@.len() == 64 * w + t,
                forall|q: int, t: int|
                    0 <= q < 64 && 0 <= t < 64 ==> #[trigger] bit64(gathered[q], t) == packed_bit(
                        z@,
                        (start + q) * k + 64 * w + t,
                    ),
                forall|r: int, c: int|
                    0 <= r < 64 && 0 <= c < 64 ==> #[trigger] bit64(lanes@[r], c) == bit64(
                        gathered[c],
                        r,
                    ),
                forall|j: int, s: int|
                    0 <= j < 64 * w + t && 0 <= s < 64 ==> #[trigger] bit64(colbits@[j], s)
                        == packed_bit(z@, (start + s) * k + j),
            decreases 64 - t,
        {
            let word: u64 = lanes[t];
            proof {
                assert forall|s: int| 0 <= s < 64 implies #[trigger] bit64(word, s) == packed_bit(
                    z@,
                    (start + s) * k + (64 * w + t),
                ) by {
                    assert(bit64(lanes@[t as int], s) == bit64(gathered[s], t as int));
                    assert((start + s) * k + 64 * w + t == (start + s) * k + (64 * w + t));
                }
            }
            colbits.push(word);
            t = t + 1;
        }
        w = w + 1;
    }
    colbits
}

/// One pass over the matrix for a strip of 64 blocks: bit `s` of word `r` is
/// bit `r` of the product of block `start + s`.
fn strip_rows64(
    row_ptr: &Vec<u32>,
    cols: &Vec<u32>,
    colbits: &Vec<u64>,
    Ghost(z): Ghost<Seq<F128>>,
    Ghost(start): Ghost<int>,
    Ghost(m): Ghost<SparseBinaryMatrix>,
    k: usize,
) -> (rowbits: Vec<u64>)
    requires
        csr_of(m, row_ptr@, cols@),
        m.square(k as nat),
        0 <= start,
        (start + 64) * k <= 128 * z.len(),
        colbits@.len() == k,
        forall|j: int, s: int|
            0 <= j < k && 0 <= s < 64 ==> #[trigger] bit64(colbits@[j], s) == packed_bit(
                z,
                (start + s) * k + j,
            ),
    ensures
        rowbits@.len() == k,
        forall|q: int, s: int|
            0 <= q < k && 0 <= s < 64 ==> #[trigger] bit64(rowbits@[q], s) == m.block_bit(
                unpacked(z),
                k as int,
                (start + s) * k + q,
            ),
{
    let mut rowbits: Vec<u64> = Vec::new();
    let mut r: usize = 0;
    while r < k
        invariant
            r <= k,
            csr_of(m, row_ptr@, cols@),
            m.square(k as nat),
            0 <= start,
            (start + 64) * k <= 128 * z.len(),
            colbits@.len() == k,
            forall|j: int, s: int|
                0 <= j < k && 0 <= s < 64 ==> #[trigger] bit64(colbits@[j], s) == packed_bit(
                    z,
                    (start + s) * k + j,
                ),
            rowbits@.len() == r,
            forall|q: int, s: int|
                0 <= q < r && 0 <= s < 64 ==> #[trigger] bit64(rowbits@[q], s) == m.block_bit(
                    unpacked(z),
                    k as int,
                    (start + s) * k + q,
                ),
        decreases k - r,
    {
        let (lo, hi) = csr_row(row_ptr, cols, r, Ghost(m));
        let mut x: u64 = 0;
        let mut c: usize = lo;
        proof {
            assert forall|s: int| 0 <= s < 64 implies #[trigger] bit64(x, s) == parity(
                0,
                strip_fn64(colbits@, cols@, lo as int, s),
            ) by {
                lemma_bit64_ops(0, 0, s);
            }
        }
        while c < hi
            invariant
                lo <= c <= hi,
                hi <= cols@.len(),
                colbits@.len() == k,
                forall|t: int| lo <= t < hi ==> #[trigger] cols@[t] < k,
                forall|s: int|
                    0 <= s < 64 ==> #[trigger] bit64(x, s) == parity(
                        (c - lo) as nat,
                        strip_fn64(colbits@, cols@, lo as int, s),
                    ),
            decreases hi - c,
        {
            let b: u64 = colbits[cols[c] as usize];
            proof {
                assert forall|s: int| 0 <= s < 64 implies #[trigger] bit64(x ^ b, s) == parity(
                    (c + 1 - lo) as nat,
                    strip_fn64(colbits@, cols@, lo as int, s),
                ) by {
                    lemma_bit64_ops(x, b, s);
                    assert(bit64(x, s) == parity(
                        (c - lo) as nat,
                        strip_fn64(colbits@, cols@, lo as int, s),
                    ));
                }
            }
            x = x ^ b;
            c = c + 1;
        }
        proof {
            assert forall|s: int| 0 <= s < 64 implies #[trigger] bit64(x, s) == m.block_bit(
                unpacked(z),
                k as int,
                (start + s) * k + r,
            ) by {
                let row = m.rows@[r as int]@;
                lemma_block_position(start + s, k as int, r as int);
                assert((start + s) * k + k <= (start + 64) * k) by (nonlinear_arith)
                    requires
                        s + 1 <= 64,
                        0 <= k,
                ;
                let f = strip_fn64(colbits@, cols@, lo as int, s);
                let i = (start + s) * k + r;
                let g = |j: int| unpacked(z)[(i / (k as int)) * k + m.rows@[i % (k as int)]@[j]];
                assert forall|j: int| 0 <= j < row.len() implies #[trigger] f(j) == g(j) by {
                    assert(cols@[lo + j] == row[lo + j - lo]);
                    let c = row[j] as int;
                    assert(bit64(colbits@[c], s) == packed_bit(z, (start + s) * k + c));
                }
                lemma_parity_ext(row.len(), f, g);
            }
        }
        rowbits.push(x);
        r = r + 1;
    }
    rowbits
}

/// 64 words from `base` on, transposed.
fn transposed_words(rowbits: &Vec<u64>, base: usize) -> (lanes: [u64; 64])
    requires
        base + 64 <= rowbits@.len(),
    ensures
        forall|s: int, t: int|
            0 <= s < 64 && 0 <= t < 64 ==> #[trigger] bit64(lanes@[s], t) == bit64(
                rowbits@[base + t],
                s,
            ),
{
    let n: usize = rowbits.len();
    let mut lanes: [u64; 64] = [0u64; 64];
    let mut t: usize = 0;
    while t < 64
        invariant
            t <= 64,
            n == rowbits@.len(),
            base + 64 <= n,
            forall|q: int| 0 <= q < t ==> #[trigger] lanes@[q] == rowbits@[base + q],
        decreases 64 - t,
    {
        lanes[t] = rowbits[base + t];
        t = t + 1;
    }
    transpose_64x64(&mut lanes);
    lanes
}

/// 64-block strip kernel: like [`apply_strip_csr`] but with u64 column bits,
/// so one matrix pass serves 64 instances and each nonzero costs one u64
/// load + XOR. Both the input and the output are bit-transposed per strip.
fn apply_strip64_csr(
    row_ptr: &Vec<u32>,
    cols: &Vec<u32>,
    z: &[F128],
    out: &mut Vec<F128>,
    start: usize,
    f128_per_block: usize,
    Ghost(m): Ghost<SparseBinaryMatrix>,
    Ghost(n_outer): Ghost<int>,
)
    requires
        csr_of(m, row_ptr@, cols@),
        m.square((128 * f128_per_block) as nat),
        0 < f128_per_block,
        start + 64 <= n_outer,
        z@.len() == n_outer * f128_per_block,
        old(out)@.len() == z@.len(),
        128 * z@.len() <= usize::MAX,
    ensures
        final(out)@.len() == old(out)@.len(),
        forall|e: int|
            start * f128_per_block <= e < (start + 64) * f128_per_block ==> #[trigger] element_done(
                m,
                z@,
                final(out)@,
                128 * f128_per_block,
                e,
            ),
        forall|e: int|
            0 <= e < old(out)@.len() && !(start * f128_per_block <= e < (start + 64)
                * f128_per_block) ==> #[trigger] final(out)@[e] == old(out)@[e],
{
    proof {
        lemma_block_bounds(n_outer, f128_per_block as int, start as int);
        lemma_block_bounds(n_outer, f128_per_block as int, start + 63);
    }
    let ghost f = f128_per_block as int;
    let k: usize = 128 * f128_per_block;
    let colbits = strip_columns64(z, start, f128_per_block, Ghost(n_outer));
    let rowbits = strip_rows64(row_ptr, cols, &colbits, Ghost(z@), Ghost(start as int), Ghost(m), k);
    let ghost before = out@;
    let mut i: usize = 0;
    while i < f128_per_block
        invariant
            i <= f128_per_block,
            k == 128 * f128_per_block,
            f == f128_per_block,
            0 < f128_per_block,
            start + 64 <= n_outer,
            0 <= start * f,
            (start + 64) * f <= z@.len(),
            z@.len() == n_outer * f128_per_block,
            128 * z@.len() <= usize::MAX,
            out@.len() == z@.len(),
            before.len() == z@.len(),
            rowbits@.len() == k,
            forall|q: int, s: int|
                0 <= q < k && 0 <= s < 64 ==> #[trigger] bit64(rowbits@[q], s) == m.block_bit(
                    unpacked(z@),
                    k as int,
                    (start + s) * k + q,
                ),
            forall|e: int|
                start * f <= e < (start + 64) * f && e % f < i ==> #[trigger] element_done(
                    m,
                    z@,
                    out@,
                    k as int,
                    e,
                ),
            forall|e: int|
                0 <= e < z@.len() && !(start * f <= e < (start + 64) * f) ==> #[trigger] out@[e]
                    == before[e],
        decreases f128_per_block - i,
    {
        let lo = transposed_words(&rowbits, 128 * i);
        let hi = transposed_words(&rowbits, 128 * i + 64);
        let mut s: usize = 0;
        while s < 64
            invariant
                s <= 64,
                i < f128_per_block,
                k == 128 * f128_per_block,
                f == f128_per_block,
                start + 64 <= n_outer,
                0 <= start * f,
                (start + 64) * f <= z@.len(),
                z@.len() == n_outer * f128_per_block,
                128 * z@.len() <= usize::MAX,
                out@.len() == z@.len(),
                before.len() == z@.len(),
                rowbits@.len() == k,
                forall|q: int, s: int|
                    0 <= q < k && 0 <= s < 64 ==> #[trigger] bit64(rowbits@[q], s) == m.block_bit(
                        unpacked(z@),
                        k as int,
                        (start + s) * k + q,
                    ),
                forall|s: int, t: int|
                    0 <= s < 64 && 0 <= t < 64 ==> #[trigger] bit64(lo@[s], t) == bit64(
                        rowbits@[128 * i + t],
                        s,
                    ),
                forall|s: int, t: int|
                    0 <= s < 64 && 0 <= t < 64 ==> #[trigger] bit64(hi@[s], t) == bit64(
                        rowbits@[128 * i + 64 + t],
                        s,
                    ),
                forall|e: int|
                    start * f <= e < (start + 64) * f && (e % f < i || (e % f == i && e < (start
                        + s) * f)) ==> #[trigger] element_done(m, z@, out@, k as int, e),
                forall|e: int|
                    0 <= e < z@.len() && !(start * f <= e < (start + 64) * f) ==> #[trigger] out@[e]
                        == before[e],
            decreases 64 - s,
        {
            proof {
                lemma_block_bounds(n_outer, f, start + s);
                lemma_block_position(start + s, f, i as int);
                assert(start * f <= (start + s) * f && (start + s) * f + f <= (start + 64) * f)
                    by (nonlinear_arith)
                    requires
                        0 <= s < 64,
                        0 <= f,
                ;
            }
            let ghost prev = out@;
            let first: usize = (start + s) * f128_per_block;
            out[first + i] = F128 { lo: lo[s], hi: hi[s] };
            proof {
                let e = first + i;
                assert forall|t: int| 0 <= t < 64 implies #[trigger] bit64(out@[e].lo, t)
                    == m.block_bit(unpacked(z@), k as int, 128 * e + t) by {
                    assert(bit64(lo@[s as int], t) == bit64(rowbits@[128 * i + t], s as int));
                    assert((start + s) * k + (128 * i + t) == 128 * e + t);
                }
                assert forall|t: int| 0 <= t < 64 implies #[trigger] bit64(out@[e].hi, t)
                    == m.block_bit(unpacked(z@), k as int, 128 * e + 64 + t) by {
                    assert(bit64(hi@[s as int], t) == bit64(rowbits@[128 * i + 64 + t], s as int));
                    assert((start + s) * k + (128 * i + 64 + t) == 128 * e + 64 + t);
                }
                lemma_element_done(m, z@, out@, k as int, e);
                assert forall|q: int|
                    start * f <= q < (start + 64) * f && (q % f < i || (q % f == i && q < (start + s
                        + 1) * f)) implies #[trigger] element_done(m, z@, out@, k as int, q) by {
                    if q != e {
                        if q % f == i && q >= (start + s) * f {
                            let d = q - (start + s) * f;
                            lemma_block_position(start + s, f, d);
                        }
                        lemma_element_kept(m, z@, prev, out@, k as int, q);
                    }
                }
            }
            s = s + 1;
        }
        i = i + 1;
    }
    proof {
        assert forall|e: int| start * f <= e < (start + 64) * f implies #[trigger] element_done(
            m,
            z@,
            out@,
            k as int,
            e,
        ) by {
            vstd::arithmetic::div_mod::lemma_mod_bound(e, f);
        }
    }
}

/// Block-diagonal `(I_{2^n_log} ⊗ M_0) · z_packed` over GF(2), packed form.
///
/// Computes `out_packed[i_packed] = (A · z)[i_packed * 128 .. i_packed * 128 + 128]`
/// for an F_{2^128}-packed witness `z_packed` of length `2^(m-7)`.
///
/// Block size `k = 2^k_log`; total witness has `n_outer = 2^(m - k_log)` blocks.
/// Blocks of at least 128 bits are processed in strips of 64 or 8, chosen by
/// the number of threads; smaller ones bit by bit.
pub fn apply_block_diag_packed(
    m_0: &SparseBinaryMatrix,
    z_packed: &[F128],
    m: usize,
    k_log: usize,
) -> (out: Vec<F128>)
    requires
        7 <= m,
        k_log <= m,
        pow2(m as nat) <= usize::MAX,
        m_0.square(pow2(k_log as nat)),
        k_log >= 7 ==> m_0.num_cols <= u32::MAX && m_0.nonzeros(m_0.num_rows as nat) <= u32::MAX,
        z_packed@.len() == pow2((m - 7) as nat),
    ensures
        out@.len() == z_packed@.len(),
        unpacked(out@) == m_0.block_product(unpacked(z_packed@), pow2(k_log as nat) as int),
{
    proof {
        lemma_packed_len(m as nat);
        lemma_blocks(m as nat, k_log as nat);
    }
    let k: usize = pow2_usize(k_log);
    let n_packed: usize = z_packed.len();
    let n_outer: usize = pow2_usize(m - k_log);
    let mut out: Vec<F128> = vec![F128::zero(); n_packed];
    if k_log >= 7 {
        let (row_ptr, cols) = flatten_csr(m_0);
        proof {
            lemma_packed_len(k_log as nat);
        }
        let f128_per_block: usize = k / 128;
        let strip: usize = if n_outer / 64 >= 1 && n_outer / 64 >= current_num_threads() {
            64
        } else {
            APPLY_STRIP
        };
        proof {
            assert(n_packed == n_outer * f128_per_block) by (nonlinear_arith)
                requires
                    128 * n_packed == k * n_outer,
                    k == 128 * f128_per_block,
            ;
            assert(0 * f128_per_block == 0) by (nonlinear_arith);
        }
        let mut start: usize = 0;
        while start < n_outer
            invariant
                start <= n_outer,
                strip == 64 || strip == 8,
                csr_of(*m_0, row_ptr@, cols@),
                m_0.square(k as nat),
                k == 128 * f128_per_block,
                0 < f128_per_block,
                n_packed == n_outer * f128_per_block,
                z_packed@.len() == n_packed,
                out@.len() == n_packed,
                128 * n_packed <= usize::MAX,
                forall|e: int|
                    0 <= e < start * f128_per_block ==> #[trigger] element_done(
                        *m_0,
                        z_packed@,
                        out@,
                        k as int,
                        e,
                    ),
            decreases n_outer - start,
        {
            let n_blocks: usize = if n_outer - start < strip {
                n_outer - start
            } else {
                strip
            };
            let ghost before = out@;
            let ghost f = f128_per_block as int;
            proof {
                assert(0 <= start * f <= (start + n_blocks) * f) by (nonlinear_arith)
                    requires
                        0 <= start,
                        0 <= n_blocks,
                        0 < f,
                ;
            }
            if n_blocks == 64 {
                apply_strip64_csr(
                    &row_ptr,
                    &cols,
                    z_packed,
                    &mut out,
                    start,
                    f128_per_block,
                    Ghost(*m_0),
                    Ghost(n_outer as int),
                );
            } else if n_blocks == APPLY_STRIP {
                apply_strip_csr(
                    &row_ptr,
                    &cols,
                    z_packed,
                    &mut out,
                    start,
                    f128_per_block,
                    Ghost(*m_0),
                    Ghost(n_outer as int),
                );
            } else {
                let mut b: usize = 0;
                while b < n_blocks
                    invariant
                        b <= n_blocks,
                        start + n_blocks <= n_outer,
                        f == f128_per_block,
                        csr_of(*m_0, row_ptr@, cols@),
                        m_0.square(k as nat),
                        k == 128 * f128_per_block,
                        0 < f128_per_block,
                        n_packed == n_outer * f128_per_block,
                        z_packed@.len() == n_packed,
                        out@.len() == n_packed,
                        before.len() == n_packed,
                        128 * n_packed <= usize::MAX,
                        0 <= start * f,
                        forall|e: int|
                            start * f <= e < (start + b) * f ==> #[trigger] element_done(
                                *m_0,
                                z_packed@,
                                out@,
                                k as int,
                                e,
                            ),
                        forall|e: int|
                            0 <= e < n_packed && !(start * f <= e < (start + b) * f)
                                ==> #[trigger] out@[e] == before[e],
                    decreases n_blocks - b,
                {
                    let ghost prev = out@;
                    apply_one_block_csr(
                        &row_ptr,
                        &cols,
                        z_packed,
                        &mut out,
                        start + b,
                        f128_per_block,
                        Ghost(*m_0),
                        Ghost(n_outer as int),
                    );
                    proof {
                        lemma_block_bounds(n_outer as int, f, start + b);
                        assert(start * f <= (start + b) * f) by (nonlinear_arith)
                            requires
                                0 <= b,
                                0 < f,
                        ;
                        assert forall|e: int|
                            start * f <= e < (start + b + 1) * f implies #[trigger] element_done(
                            *m_0,
                            z_packed@,
                            out@,
                            k as int,
                            e,
                        ) by {
                            if e < (start + b) * f {
                                lemma_element_kept(*m_0, z_packed@, prev, out@, k as int, e);
                            }
                        }
                    }
                    b = b + 1;
                }
            }
            proof {
                lemma_block_bounds(n_outer as int, f, start + n_blocks - 1);
                assert forall|e: int|
                    0 <= e < (start + n_blocks) * f implies #[trigger] element_done(
                    *m_0,
                    z_packed@,
                    out@,
                    k as int,
                    e,
                ) by {
                    if e < start * f {
                        lemma_element_kept(*m_0, z_packed@, before, out@, k as int, e);
                    }
                }
            }
            start = start + n_blocks;
        }
        proof {
            let z = unpacked(z_packed@);
            assert forall|i: int| 0 <= i < z.len() implies unpacked(out@)[i] == m_0.block_product(
                z,
                k as int,
            )[i] by {
                let e = i / 128;
                assert(element_done(*m_0, z_packed@, out@, k as int, e));
                assert(packed_bit(out@, i) == m_0.block_bit(z, k as int, i));
            }
            assert(unpacked(out@) =~= m_0.block_product(z, k as int));
        }
    } else {
        apply_small_blocks(m_0, z_packed, &mut out, k, n_outer);
    }
    out
}

/// The product bit by bit, into an output of zeros. For blocks that straddle
/// elements (`k_log < 7`).
fn apply_small_blocks(
    m_0: &SparseBinaryMatrix,
    z_packed: &[F128],
    out: &mut Vec<F128>,
    k: usize,
    n_outer: usize,
)
    requires
        k > 0,
        m_0.square(k as nat),
        128 * z_packed@.len() == k * n_outer,
        128 * z_packed@.len() <= usize::MAX,
        old(out)@.len() == z_packed@.len(),
        forall|e: int| 0 <= e < old(out)@.len() ==> #[trigger] old(out)@[e] == F128::zero(),
    ensures
        final(out)@.len() == z_packed@.len(),
        unpacked(final(out)@) == m_0.block_product(unpacked(z_packed@), k as int),
{
    let ghost z = unpacked(z_packed@);
    let ghost total = 128 * z_packed@.len();
    proof {
        assert forall|i: int| 0 <= i < total implies !(#[trigger] packed_bit(out@, i)) by {
            let t = i % 128;
            assert(out@[i / 128] == F128::zero());
            if t < 64 {
                lemma_bit64_ops(0, 0, t);
            } else {
                lemma_bit64_ops(0, 0, t - 64);
            }
        }
        assert(0 * k == 0) by (nonlinear_arith);
    }
    let mut i_outer: usize = 0;
    while i_outer < n_outer
        invariant
            i_outer <= n_outer,
            k > 0,
            m_0.square(k as nat),
            total == 128 * z_packed@.len(),
            total == k * n_outer,
            total <= usize::MAX,
            z == unpacked(z_packed@),
            out@.len() == z_packed@.len(),
            forall|i: int|
                0 <= i < i_outer * k ==> #[trigger] packed_bit(out@, i) == m_0.block_bit(
                    z,
                    k as int,
                    i,
                ),
            forall|i: int| i_outer * k <= i < total ==> !(#[trigger] packed_bit(out@, i)),
        decreases n_outer - i_outer,
    {
        proof {
            assert(0 <= i_outer * k && i_outer * k + k <= k * n_outer) by (nonlinear_arith)
                requires
                    i_outer + 1 <= n_outer,
                    k > 0,
                    0 <= i_outer,
            ;
            assert((i_outer + 1) * k == i_outer * k + k) by (nonlinear_arith);
        }
        let block_start_bit: usize = i_outer * k;
        let mut r: usize = 0;
        while r < k
            invariant
                r <= k,
                k > 0,
                i_outer < n_outer,
                m_0.square(k as nat),
                total == 128 * z_packed@.len(),
                total <= usize::MAX,
                block_start_bit == i_outer * k,
                block_start_bit + k <= total,
                z == unpacked(z_packed@),
                out@.len() == z_packed@.len(),
                forall|i: int|
                    0 <= i < block_start_bit + r ==> #[trigger] packed_bit(out@, i)
                        == m_0.block_bit(z, k as int, i),
                forall|i: int|
                    block_start_bit + r <= i < total ==> !(#[trigger] packed_bit(out@, i)),
            decreases k - r,
        {
            let row = &m_0.rows[r];
            let len: usize = row.len();
            let ghost f = |j: int| z[block_start_bit + row@[j]];
            let mut acc = false;
            let mut j: usize = 0;
            while j < len
                invariant
                    j <= len,
                    r < k,
                    m_0.square(k as nat),
                    row == m_0.rows@[r as int],
                    len == row@.len(),
                    total == 128 * z_packed@.len(),
                    total <= usize::MAX,
                    block_start_bit + k <= total,
                    z == unpacked(z_packed@),
                    f == (|j: int| z[block_start_bit + row@[j]]),
                    acc == parity(j as nat, f),
                decreases len - j,
            {
                assert(m_0.rows@[r as int]@[j as int] < m_0.num_cols);
                assert(f(j as int) == packed_bit(z_packed@, block_start_bit + row@[j as int]));
                if get_bit_packed(z_packed, block_start_bit + row[j]) {
                    acc = !acc;
                }
                j = j + 1;
            }
            proof {
                let i = block_start_bit + r;
                lemma_block_position(i_outer as int, k as int, r as int);
                lemma_parity_ext(
                    row@.len(),
                    |j: int| z[(i / (k as int)) * k + m_0.rows@[i % (k as int)]@[j]],
                    f,
                );
            }
            if acc {
                set_bit_packed(out, block_start_bit + r);
            }
            r = r + 1;
        }
        i_outer = i_outer + 1;
    }
    proof {
        assert(n_outer * k == k * n_outer) by (nonlinear_arith);
        assert(unpacked(out@) =~= m_0.block_product(z, k as int));
    }
}

} // verus!
