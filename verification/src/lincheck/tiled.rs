//! Partial folds of the witness by tiles: eight stripes are swept per touch of
//! the accumulators, for blocks of eight rows.
use vstd::arithmetic::power2::{lemma2_to64, pow2};
use vstd::prelude::*;
use crate::field::F128;
use crate::index::pow2_usize;
use crate::lincheck::fold::{
    build_sum_table, lemma_fold_stripe, lemma_stripes, outer_fold, row_fold, stripes_fit,
    subset_sum,
};
use crate::r1cs::lemma_blocks;
use crate::threads::current_num_threads;

verus! {

/// Stripes swept per accumulator touch in the tiled partial fold.
/// Larger ⇒ the length-`k` accumulator is re-streamed fewer times
/// (`n_stripes / NEON_TILE_T`), but the per-tile sum tables grow
/// `NEON_TILE_T × 4 KB` and must stay L1-resident.
const NEON_TILE_T: usize = 8;

/// Rows per block.
const BLOCK_K: usize = 8;

/// The number of rows that the blocks touching the first `useful` rows cover.
pub open spec fn covered_rows(useful: int) -> int {
    8 * ((useful + 7) / 8)
}

/// The sum tables of the eight stripes from `stripe_base` on.
spec fn tile_tables(tables: Seq<F128>, weights: Seq<F128>, stripe_base: int) -> bool {
    &&& tables.len() == 2048
    &&& forall|t: int, b: int|
        0 <= t < 8 && 0 <= b < 256 ==> #[trigger] tile_entry(tables, t, b) == subset_sum(
            weights.subrange(8 * (stripe_base + t), 8 * (stripe_base + t) + 8),
            b as nat,
            8,
        )
}

spec fn tile_entry(tables: Seq<F128>, t: int, b: int) -> F128 {
    tables[256 * t + b]
}

fn build_tile_tables(weights: &[F128], stripe_base: usize, tables: &mut Vec<F128>)
    requires
        old(tables)@.len() == 2048,
        8 * (stripe_base + 8) <= weights@.len(),
    ensures
        tile_tables(final(tables)@, weights@, stripe_base as int),
{
    let n: usize = weights.len();
    let mut t: usize = 0;
    while t < NEON_TILE_T
        invariant
            t <= 8,
            n == weights@.len(),
            8 * (stripe_base + 8) <= n,
            tables@.len() == 2048,
            forall|q: int, b: int|
                0 <= q < t && 0 <= b < 256 ==> #[trigger] tile_entry(tables@, q, b) == subset_sum(
                    weights@.subrange(8 * (stripe_base + q), 8 * (stripe_base + q) + 8),
                    b as nat,
                    8,
                ),
        decreases 8 - t,
    {
        let ghost before = tables@;
        build_sum_table(weights, 8 * (stripe_base + t), tables, 256 * t);
        proof {
            assert forall|q: int, b: int|
                0 <= q < t + 1 && 0 <= b < 256 implies #[trigger] tile_entry(tables@, q, b)
                == subset_sum(
                weights@.subrange(8 * (stripe_base + q), 8 * (stripe_base + q) + 8),
                b as nat,
                8,
            ) by {
                if q < t {
                    assert(tile_entry(before, q, b) == before[256 * q + b]);
                    assert(tables@[256 * q + b] == before[256 * q + b]);
                } else {
                    assert(tables@[256 * t + b] == subset_sum(
                        weights@.subrange(8 * (stripe_base + t), 8 * (stripe_base + t) + 8),
                        b as nat,
                        8,
                    ));
                }
            }
        }
        t = t + 1;
    }
}

/// Inner kernel — sweep eight stripes for one block of eight rows, keeping one
/// accumulator per row.
fn process_block_single(
    z: &[u8],
    k: usize,
    stripe_base: usize,
    i0: usize,
    tables: &Vec<F128>,
    out: &mut Vec<F128>,
    Ghost(weights): Ghost<Seq<F128>>,
    Ghost(n_stripes): Ghost<int>,
)
    requires
        i0 + 8 <= k,
        old(out)@.len() == k,
        stripe_base + 8 <= n_stripes,
        z@.len() == k * n_stripes,
        weights.len() == 8 * n_stripes,
        tile_tables(tables@, weights, stripe_base as int),
        forall|i: int|
            i0 <= i < i0 + 8 ==> #[trigger] old(out)@[i] == row_fold(
                z@,
                k as int,
                weights,
                (8 * stripe_base) as nat,
                i,
            ),
    ensures
        final(out)@.len() == k,
        forall|i: int|
            i0 <= i < i0 + 8 ==> #[trigger] final(out)@[i] == row_fold(
                z@,
                k as int,
                weights,
                (8 * (stripe_base + 8)) as nat,
                i,
            ),
        forall|i: int|
            0 <= i < k && !(i0 <= i < i0 + 8) ==> #[trigger] final(out)@[i] == old(out)@[i],
{
    let total: usize = z.len();
    let ghost start = out@;
    let mut l: usize = 0;
    while l < BLOCK_K
        invariant
            l <= 8,
            i0 + 8 <= k,
            out@.len() == k,
            start.len() == k,
            stripe_base + 8 <= n_stripes,
            total == z@.len(),
            total == k * n_stripes,
            weights.len() == 8 * n_stripes,
            tile_tables(tables@, weights, stripe_base as int),
            forall|i: int|
                i0 <= i < i0 + 8 ==> #[trigger] start[i] == row_fold(
                    z@,
                    k as int,
                    weights,
                    (8 * stripe_base) as nat,
                    i,
                ),
            forall|i: int|
                i0 <= i < i0 + l ==> #[trigger] out@[i] == row_fold(
                    z@,
                    k as int,
                    weights,
                    (8 * (stripe_base + 8)) as nat,
                    i,
                ),
            forall|i: int|
                0 <= i < k && !(i0 <= i < i0 + l) ==> #[trigger] out@[i] == start[i],
        decreases 8 - l,
    {
        let mut acc = out[i0 + l];
        let mut t: usize = 0;
        while t < NEON_TILE_T
            invariant
                t <= 8,
                l < 8,
                i0 + 8 <= k,
                stripe_base + 8 <= n_stripes,
                total == z@.len(),
                total == k * n_stripes,
                weights.len() == 8 * n_stripes,
                tile_tables(tables@, weights, stripe_base as int),
                acc == row_fold(
                    z@,
                    k as int,
                    weights,
                    (8 * (stripe_base + t)) as nat,
                    i0 + l,
                ),
            decreases 8 - t,
        {
            proof {
                let s = stripe_base + t;
                assert(0 <= s * k && s * k + k <= k * n_stripes && s <= s * k) by (nonlinear_arith)
                    requires
                        0 <= s,
                        s + 1 <= n_stripes,
                        1 <= k,
                ;
                lemma_fold_stripe(z@, k as int, weights, s, i0 + l);
            }
            let byte: usize = z[(stripe_base + t) * k + i0 + l] as usize;
            assert(tile_entry(tables@, t as int, byte as int) == tables@[256 * t + byte]);
            acc = acc + tables[256 * t + byte];
            t = t + 1;
        }
        out[i0 + l] = acc;
        l = l + 1;
    }
}

proof fn lemma_tiles(m: nat, k_log: nat)
    requires
        m >= k_log + 6,
        k_log >= 3,
    ensures
        pow2((m - k_log) as nat) == 64 * (pow2((m - k_log) as nat) / 64),
        pow2((m - k_log) as nat) / 8 == 8 * (pow2((m - k_log) as nat) / 64),
        pow2(k_log) == 8 * (pow2(k_log) / 8),
{
    lemma2_to64();
    lemma_blocks((m - k_log) as nat, 6);
    lemma_blocks(k_log, 3);
}

/// Single-matrix partial fold by tiles. Keeps eight accumulators across a
/// tile of eight stripes.
pub fn partial_fold_packed_z_neon_single(
    z_packed: &[u8],
    m: usize,
    k_log: usize,
    eq_outer: &[F128],
) -> (out: Vec<F128>)
    requires
        stripes_fit(z_packed@, m as int, k_log as int),
        m >= k_log + 6,
        k_log >= 3,
        eq_outer@.len() == pow2((m - k_log) as nat),
    ensures
        out@ == outer_fold(z_packed@, pow2(k_log as nat) as int, eq_outer@, pow2(k_log as nat) as int),
{
    proof {
        lemma_stripes(m as nat, k_log as nat);
        lemma_tiles(m as nat, k_log as nat);
    }
    let k: usize = pow2_usize(k_log);
    assert(covered_rows(k as int) == k);
    partial_fold_packed_z_neon_single_padded(z_packed, m, k_log, k, eq_outer)
}

/// Padding-aware variant of [`partial_fold_packed_z_neon_single`]. Rounds
/// `useful_bits` up to a multiple of `BLOCK_K = 8` and processes only the
/// covered blocks; the trailing blocks (entirely padding) stay zero in the
/// accumulator. Any partially-useful boundary block is processed in full.
pub fn partial_fold_packed_z_neon_single_padded(
    z_packed: &[u8],
    m: usize,
    k_log: usize,
    useful_bits: usize,
    eq_outer: &[F128],
) -> (out: Vec<F128>)
    requires
        stripes_fit(z_packed@, m as int, k_log as int),
        m >= k_log + 6,
        k_log >= 3,
        eq_outer@.len() == pow2((m - k_log) as nat),
        useful_bits <= pow2(k_log as nat),
    ensures
        out@ == outer_fold(
            z_packed@,
            pow2(k_log as nat) as int,
            eq_outer@,
            covered_rows(useful_bits as int),
        ),
{
    proof {
        lemma_stripes(m as nat, k_log as nat);
        lemma_tiles(m as nat, k_log as nat);
    }
    let k: usize = pow2_usize(k_log);
    let n_outer: usize = eq_outer.len();
    let n_stripes: usize = n_outer / 8;
    let n_tiles: usize = n_stripes / NEON_TILE_T;
    let full_blocks: usize = useful_bits / BLOCK_K;
    let n_blocks: usize = if useful_bits % BLOCK_K == 0 {
        full_blocks
    } else {
        full_blocks + 1
    };
    assert(8 * n_blocks == covered_rows(useful_bits as int) && 8 * n_blocks <= k);
    let mut out: Vec<F128> = vec![F128::zero(); k];
    let mut tables: Vec<F128> = vec![F128::zero(); 2048];
    let mut tile: usize = 0;
    while tile < n_tiles
        invariant
            tile <= n_tiles,
            n_outer == eq_outer@.len(),
            n_outer == 8 * n_stripes,
            n_stripes == 8 * n_tiles,
            z_packed@.len() == k * n_stripes,
            8 * n_blocks <= k,
            tables@.len() == 2048,
            out@.len() == k,
            forall|i: int|
                0 <= i < 8 * n_blocks ==> #[trigger] out@[i] == row_fold(
                    z_packed@,
                    k as int,
                    eq_outer@,
                    (64 * tile) as nat,
                    i,
                ),
            forall|i: int| 8 * n_blocks <= i < k ==> #[trigger] out@[i] == F128::zero(),
        decreases n_tiles - tile,
    {
        let stripe_base: usize = tile * NEON_TILE_T;
        build_tile_tables(eq_outer, stripe_base, &mut tables);
        let mut block: usize = 0;
        while block < n_blocks
            invariant
                block <= n_blocks,
                tile < n_tiles,
                stripe_base == 8 * tile,
                n_outer == eq_outer@.len(),
                n_outer == 8 * n_stripes,
                n_stripes == 8 * n_tiles,
                z_packed@.len() == k * n_stripes,
                8 * n_blocks <= k,
                tile_tables(tables@, eq_outer@, stripe_base as int),
                out@.len() == k,
                forall|i: int|
                    0 <= i < 8 * block ==> #[trigger] out@[i] == row_fold(
                        z_packed@,
                        k as int,
                        eq_outer@,
                        (64 * (tile + 1)) as nat,
                        i,
                    ),
                forall|i: int|
                    8 * block <= i < 8 * n_blocks ==> #[trigger] out@[i] == row_fold(
                        z_packed@,
                        k as int,
                        eq_outer@,
                        (64 * tile) as nat,
                        i,
                    ),
                forall|i: int| 8 * n_blocks <= i < k ==> #[trigger] out@[i] == F128::zero(),
            decreases n_blocks - block,
        {
            process_block_single(
                z_packed,
                k,
                stripe_base,
                block * BLOCK_K,
                &tables,
                &mut out,
                Ghost(eq_outer@),
                Ghost(n_stripes as int),
            );
            block = block + 1;
        }
        tile = tile + 1;
    }
    proof {
        assert(out@ =~= outer_fold(
            z_packed@,
            k as int,
            eq_outer@,
            covered_rows(useful_bits as int),
        ));
    }
    out
}

/// **i_inner-partitioned** partial fold. Same result as
/// [`partial_fold_packed_z_neon_single_padded`] but cuts up the **output**
/// (`i_inner`) instead of the stripes of z: each part owns a disjoint slice of
/// a single `out`, so there is no final reduction, and rebuilds the per-tile
/// sum tables for its own slice.
pub fn partial_fold_packed_z_neon_iblock_padded(
    z_packed: &[u8],
    m: usize,
    k_log: usize,
    useful_bits: usize,
    eq_outer: &[F128],
) -> (out: Vec<F128>)
    requires
        stripes_fit(z_packed@, m as int, k_log as int),
        m >= k_log + 6,
        k_log >= 3,
        eq_outer@.len() == pow2((m - k_log) as nat),
        useful_bits <= pow2(k_log as nat),
    ensures
        out@ == outer_fold(
            z_packed@,
            pow2(k_log as nat) as int,
            eq_outer@,
            covered_rows(useful_bits as int),
        ),
{
    proof {
        lemma_stripes(m as nat, k_log as nat);
        lemma_tiles(m as nat, k_log as nat);
    }
    let k: usize = pow2_usize(k_log);
    let n_outer: usize = eq_outer.len();
    let n_stripes: usize = n_outer / 8;
    let n_tiles: usize = n_stripes / NEON_TILE_T;
    let full_blocks: usize = useful_bits / BLOCK_K;
    let n_blocks: usize = if useful_bits % BLOCK_K == 0 {
        full_blocks
    } else {
        full_blocks + 1
    };
    assert(8 * n_blocks == covered_rows(useful_bits as int) && 8 * n_blocks <= k);
    let threads: usize = current_num_threads();
    let p: usize = if threads == 0 {
        1
    } else {
        threads
    };
    let blocks_per_part: usize = if n_blocks / p == 0 {
        1
    } else {
        n_blocks / p
    };
    let mut out: Vec<F128> = vec![F128::zero(); k];
    let mut first: usize = 0;
    while first < n_blocks
        invariant
            first <= n_blocks,
            1 <= blocks_per_part,
            n_outer == eq_outer@.len(),
            n_outer == 8 * n_stripes,
            n_stripes == 8 * n_tiles,
            z_packed@.len() == k * n_stripes,
            8 * n_blocks <= k,
            out@.len() == k,
            forall|i: int|
                0 <= i < 8 * first ==> #[trigger] out@[i] == row_fold(
                    z_packed@,
                    k as int,
                    eq_outer@,
                    n_outer as nat,
                    i,
                ),
            forall|i: int| 8 * first <= i < k ==> #[trigger] out@[i] == F128::zero(),
        decreases n_blocks - first,
    {
        let part: usize = if n_blocks - first < blocks_per_part {
            n_blocks - first
        } else {
            blocks_per_part
        };
        let end: usize = first + part;
        let mut tables: Vec<F128> = vec![F128::zero(); 2048];
        let mut tile: usize = 0;
        while tile < n_tiles
            invariant
                tile <= n_tiles,
                first < end <= n_blocks,
                n_outer == eq_outer@.len(),
                n_outer == 8 * n_stripes,
                n_stripes == 8 * n_tiles,
                z_packed@.len() == k * n_stripes,
                8 * n_blocks <= k,
                tables@.len() == 2048,
                out@.len() == k,
                forall|i: int|
                    0 <= i < 8 * first ==> #[trigger] out@[i] == row_fold(
                        z_packed@,
                        k as int,
                        eq_outer@,
                        n_outer as nat,
                        i,
                    ),
                forall|i: int|
                    8 * first <= i < 8 * end ==> #[trigger] out@[i] == row_fold(
                        z_packed@,
                        k as int,
                        eq_outer@,
                        (64 * tile) as nat,
                        i,
                    ),
                forall|i: int| 8 * end <= i < k ==> #[trigger] out@[i] == F128::zero(),
            decreases n_tiles - tile,
        {
            let stripe_base: usize = tile * NEON_TILE_T;
            build_tile_tables(eq_outer, stripe_base, &mut tables);
            let mut block: usize = first;
            while block < end
                invariant
                    first <= block <= end,
                    first < end <= n_blocks,
                    tile < n_tiles,
                    stripe_base == 8 * tile,
                    n_outer == eq_outer@.len(),
                    n_outer == 8 * n_stripes,
                    n_stripes == 8 * n_tiles,
                    z_packed@.len() == k * n_stripes,
                    8 * n_blocks <= k,
                    tile_tables(tables@, eq_outer@, stripe_base as int),
                    out@.len() == k,
                    forall|i: int|
                        0 <= i < 8 * first ==> #[trigger] out@[i] == row_fold(
                            z_packed@,
                            k as int,
                            eq_outer@,
                            n_outer as nat,
                            i,
                        ),
                    forall|i: int|
                        8 * first <= i < 8 * block ==> #[trigger] out@[i] == row_fold(
                            z_packed@,
                            k as int,
                            eq_outer@,
                            (64 * (tile + 1)) as nat,
                            i,
                        ),
                    forall|i: int|
                        8 * block <= i < 8 * end ==> #[trigger] out@[i] == row_fold(
                            z_packed@,
                            k as int,
                            eq_outer@,
                            (64 * tile) as nat,
                            i,
                        ),
                    forall|i: int| 8 * end <= i < k ==> #[trigger] out@[i] == F128::zero(),
                decreases end - block,
            {
                process_block_single(
                    z_packed,
                    k,
                    stripe_base,
                    block * BLOCK_K,
                    &tables,
                    &mut out,
                    Ghost(eq_outer@),
                    Ghost(n_stripes as int),
                );
                block = block + 1;
            }
            tile = tile + 1;
        }
        first = end;
    }
    proof {
        assert(out@ =~= outer_fold(
            z_packed@,
            k as int,
            eq_outer@,
            covered_rows(useful_bits as int),
        ));
    }
    out
}

} // verus!
