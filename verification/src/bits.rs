//! Small bit-manipulation primitives shared across modules.
use vstd::prelude::*;

verus! {

/// Bit `i` of a 64-bit word.
pub open spec fn bit64(x: u64, i: int) -> bool {
    (x >> (i as u64)) & 1 == 1
}

/// Bit `i` of a byte.
pub open spec fn bit8(x: u8, i: int) -> bool {
    (x >> (i as u8)) & 1 == 1
}

/// The three delta swaps of the 8×8 transpose.
spec fn swap_network(x: u64) -> u64 {
    let t0 = (x ^ (x >> 7)) & 0x00AA_00AA_00AA_00AAu64;
    let x1 = x ^ t0 ^ (t0 << 7);
    let t1 = (x1 ^ (x1 >> 14)) & 0x0000_CCCC_0000_CCCCu64;
    let x2 = x1 ^ t1 ^ (t1 << 14);
    let t2 = (x2 ^ (x2 >> 28)) & 0x0000_0000_F0F0_F0F0u64;
    x2 ^ t2 ^ (t2 << 28)
}

proof fn lemma_swap_network(x: u64, r: u64, c: u64, i: u64)
    by (bit_vector)
    requires
        r < 8,
        c < 8,
    ensures
        (swap_network(x) >> ((c * 8 + r) as u64)) & 1 == (x >> ((r * 8 + c) as u64)) & 1,
        swap_network(swap_network(x)) == x,
{
}

/// Hacker's Delight (Sec. 7-3) 8×8 bit-matrix transpose stored in a `u64`.
///
/// The input holds 8 bytes representing 8 rows of 8 bits each; the output holds
/// the transposed matrix (bit `r·8 + c` of input → bit `c·8 + r` of output).
#[inline(always)]
pub fn transpose_8x8_bits(x: u64) -> (out: u64)
    ensures
        forall|r: int, c: int|
            0 <= r < 8 && 0 <= c < 8 ==> #[trigger] bit64(out, c * 8 + r) == bit64(x, r * 8 + c),
        out == transposed_8x8(x),
{
    let t0: u64 = (x ^ (x >> 7)) & 0x00AA_00AA_00AA_00AAu64;
    let x1: u64 = x ^ t0 ^ (t0 << 7);
    let t1: u64 = (x1 ^ (x1 >> 14)) & 0x0000_CCCC_0000_CCCCu64;
    let x2: u64 = x1 ^ t1 ^ (t1 << 14);
    let t2: u64 = (x2 ^ (x2 >> 28)) & 0x0000_0000_F0F0_F0F0u64;
    let out: u64 = x2 ^ t2 ^ (t2 << 28);
    proof {
        lemma_transposed_8x8_bits(x);
    }
    out
}

/// The 8×8 transpose of `x`.
pub closed spec fn transposed_8x8(x: u64) -> u64 {
    swap_network(x)
}

/// What the transpose does to each bit.
pub proof fn lemma_transposed_8x8_bits(x: u64)
    ensures
        forall|r: int, c: int|
            0 <= r < 8 && 0 <= c < 8 ==> #[trigger] bit64(transposed_8x8(x), c * 8 + r) == bit64(
                x,
                r * 8 + c,
            ),
{
    assert forall|r: int, c: int| 0 <= r < 8 && 0 <= c < 8 implies #[trigger] bit64(
        transposed_8x8(x),
        c * 8 + r,
    ) == bit64(x, r * 8 + c) by {
        lemma_swap_network(x, r as u64, c as u64, 0);
    }
}

/// Transposing twice is the identity.
pub proof fn lemma_transpose_is_involution(x: u64)
    ensures
        transposed_8x8(transposed_8x8(x)) == x,
{
    lemma_swap_network(x, 0, 0, 0);
}

proof fn lemma_gathered_byte(packed: u64, lane: u64, shift: u64, r: u64, q: u64, t: u64)
    by (bit_vector)
    requires
        r < 8,
        q < 8,
        t < 8,
        shift <= 56,
    ensures
        r == q && (packed >> ((q * 8 + t) as u64)) & 1 == 0 ==> ((packed | (((lane >> shift) & 0xFF)
            << ((8 * r) as u64))) >> ((q * 8 + t) as u64)) & 1 == (lane >> ((shift + t) as u64))
            & 1,
        r != q ==> ((packed | (((lane >> shift) & 0xFF) << ((8 * r) as u64))) >> ((q * 8
            + t) as u64)) & 1 == (packed >> ((q * 8 + t) as u64)) & 1,
        (0u64 >> ((q * 8 + t) as u64)) & 1 == 0,
{
}

proof fn lemma_byte_of_word(w: u64, t: u64, r: u64)
    by (bit_vector)
    requires
        r < 8,
        t < 8,
    ensures
        ((((w >> ((8 * t) as u64)) & 0xFF) as u8) >> (r as u8)) & 1 == ((w >> ((t * 8 + r) as u64))
            & 1) as u8,
{
}

/// Bit-transpose 8 `u64` lanes into a 64-byte output stripe: bit `r` of output
/// byte `c·8 + t` is bit `t` of byte `c` of lane `r`, that is bit `c·8 + t` of
/// the lane.
pub fn transpose_8_u64s_to_64_bytes(lanes: &[u64; 8], out: &mut [u8])
    requires
        old(out)@.len() == 64,
    ensures
        final(out)@.len() == 64,
        forall|j: int, r: int|
            0 <= j < 64 && 0 <= r < 8 ==> bit8(#[trigger] final(out)@[j], r) == bit64(
                #[trigger] lanes@[r],
                j,
            ),
{
    let mut c: usize = 0;
    while c < 8
        invariant
            c <= 8,
            out@.len() == 64,
            forall|j: int, r: int|
                0 <= j < c * 8 && 0 <= r < 8 ==> bit8(#[trigger] out@[j], r) == bit64(
                    #[trigger] lanes@[r],
                    j,
                ),
        decreases 8 - c,
    {
        let shift: u64 = (c as u64) * 8;
        let mut packed: u64 = 0;
        let mut r: usize = 0;
        proof {
            assert forall|q: int, t: int| 0 <= q < 8 && 0 <= t < 8 implies !(#[trigger] bit64(
                packed,
                q * 8 + t,
            )) by {
                lemma_gathered_byte(0, 0, 0, 0, q as u64, t as u64);
            }
        }
        while r < 8
            invariant
                r <= 8,
                c < 8,
                shift == c * 8,
                forall|q: int, t: int|
                    0 <= q < r && 0 <= t < 8 ==> #[trigger] bit64(packed, q * 8 + t) == bit64(
                        lanes@[q],
                        c * 8 + t,
                    ),
                forall|q: int, t: int|
                    r <= q < 8 && 0 <= t < 8 ==> !(#[trigger] bit64(packed, q * 8 + t)),
            decreases 8 - r,
        {
            let next: u64 = packed | (((lanes[r] >> shift) & 0xFF) << (8 * (r as u64)));
            proof {
                assert forall|q: int, t: int| 0 <= q < 8 && 0 <= t < 8 implies #[trigger] bit64(
                    next,
                    q * 8 + t,
                ) == (if q == r {
                    bit64(lanes@[q], c * 8 + t)
                } else {
                    bit64(packed, q * 8 + t)
                }) by {
                    lemma_gathered_byte(packed, lanes@[r as int], shift, r as u64, q as u64, t as u64);
                    assert(q == r ==> !bit64(packed, q * 8 + t));
                    lemma_bit_values(packed, (q * 8 + t) as u64);
                }
            }
            packed = next;
            r = r + 1;
        }
        let transposed: u64 = transpose_8x8_bits(packed);
        let mut t: usize = 0;
        while t < 8
            invariant
                t <= 8,
                c < 8,
                out@.len() == 64,
                forall|q: int, k: int|
                    0 <= q < 8 && 0 <= k < 8 ==> #[trigger] bit64(transposed, k * 8 + q) == bit64(
                        packed,
                        q * 8 + k,
                    ),
                forall|q: int, k: int|
                    0 <= q < 8 && 0 <= k < 8 ==> #[trigger] bit64(packed, q * 8 + k) == bit64(
                        lanes@[q],
                        c * 8 + k,
                    ),
                forall|j: int, r: int|
                    0 <= j < c * 8 + t && 0 <= r < 8 ==> bit8(#[trigger] out@[j], r) == bit64(
                        #[trigger] lanes@[r],
                        j,
                    ),
            decreases 8 - t,
        {
            let byte: u8 = ((transposed >> (8 * (t as u64))) & 0xFF) as u8;
            proof {
                assert forall|r: int| 0 <= r < 8 implies bit8(byte, r) == bit64(
                    #[trigger] lanes@[r],
                    c * 8 + t,
                ) by {
                    lemma_byte_of_word(transposed, t as u64, r as u64);
                    assert(bit64(transposed, t * 8 + r) == bit64(packed, r * 8 + t));
                    lemma_bit_values(transposed, (t * 8 + r) as u64);
                }
            }
            out[c * 8 + t] = byte;
            t = t + 1;
        }
        c = c + 1;
    }
}

proof fn lemma_word_bits(x: u64, y: u64, i: u64, j: u64, a: u8, b: u8, s: u8, t: u8)
    by (bit_vector)
    requires
        i < 64,
        j < 64,
        s < 8,
        t < 8,
    ensures
        (x >> i) & 1 == 0 || (x >> i) & 1 == 1,
        ((x ^ y) >> i) & 1 == ((x >> i) & 1) ^ ((y >> i) & 1),
        ((x & y) >> i) & 1 == ((x >> i) & 1) & ((y >> i) & 1),
        ((x | (1u64 << j)) >> i) & 1 == (if i == j {
            1
        } else {
            (x >> i) & 1
        }),
        (0u64 >> i) & 1 == 0,
        (0u64 ^ 0u64) == 0u64 && (0u64 ^ 1u64) == 1u64 && (1u64 ^ 0u64) == 1u64 && (1u64 ^ 1u64)
            == 0u64,
        (0u64 & 0u64) == 0u64 && (0u64 & 1u64) == 0u64 && (1u64 & 0u64) == 0u64 && (1u64 & 1u64)
            == 1u64,
        (a >> s) & 1 == 0 || (a >> s) & 1 == 1,
        ((a ^ b) >> s) & 1 == ((a >> s) & 1) ^ ((b >> s) & 1),
        ((a | (1u8 << t)) >> s) & 1 == (if s == t {
            1
        } else {
            (a >> s) & 1
        }),
        (0u8 >> s) & 1 == 0,
        (0u8 ^ 0u8) == 0u8 && (0u8 ^ 1u8) == 1u8 && (1u8 ^ 0u8) == 1u8 && (1u8 ^ 1u8) == 0u8,
{
}

proof fn lemma_bit_values(x: u64, i: u64)
    requires
        i < 64,
    ensures
        (x >> i) & 1 == 0 || (x >> i) & 1 == 1,
{
    lemma_word_bits(x, 0, i, 0, 0, 0, 0, 0);
}

/// The bits of an exclusive or and of a conjunction.
pub proof fn lemma_bit64_ops(x: u64, y: u64, i: int)
    requires
        0 <= i < 64,
    ensures
        bit64(x ^ y, i) == (bit64(x, i) != bit64(y, i)),
        bit64(x & y, i) == (bit64(x, i) && bit64(y, i)),
        !bit64(0, i),
{
    lemma_word_bits(x, y, i as u64, 0, 0, 0, 0, 0);
    lemma_word_bits(y, x, i as u64, 0, 0, 0, 0, 0);
}

/// The bits of a word in which bit `j` is set.
pub proof fn lemma_bit64_set(x: u64, j: int, i: int)
    requires
        0 <= i < 64,
        0 <= j < 64,
    ensures
        bit64(x | (1u64 << (j as u64)), i) == (i == j || bit64(x, i)),
{
    lemma_word_bits(x, 0, i as u64, j as u64, 0, 0, 0, 0);
}

/// The bits of an exclusive or of bytes, and of a byte in which bit `t` is set.
pub proof fn lemma_bit8_ops(a: u8, b: u8, t: int, s: int)
    requires
        0 <= s < 8,
        0 <= t < 8,
    ensures
        bit8(a ^ b, s) == (bit8(a, s) != bit8(b, s)),
        bit8(a | (1u8 << (t as u8)), s) == (s == t || bit8(a, s)),
        !bit8(0, s),
{
    lemma_word_bits(0, 0, 0, 0, a, b, s as u8, t as u8);
    lemma_word_bits(0, 0, 0, 0, b, a, s as u8, t as u8);
}

proof fn lemma_tail_bits(x: u64, y: u64, i: u64)
    by (bit_vector)
    ensures
        i == 63 && (x >> i) & 1 == (y >> i) & 1 ==> x >> i == y >> i,
        i < 63 && x >> ((i + 1) as u64) == y >> ((i + 1) as u64) && (x >> i) & 1 == (y >> i) & 1
            ==> x >> i == y >> i,
        x >> 0u64 == x,
{
}

/// A word is determined by its bits.
pub proof fn lemma_bit64_extensional(x: u64, y: u64)
    requires
        forall|i: int| 0 <= i < 64 ==> #[trigger] bit64(x, i) == bit64(y, i),
    ensures
        x == y,
{
    lemma_tail_equal(x, y, 0);
    lemma_tail_bits(x, y, 0);
    lemma_tail_bits(y, x, 0);
}

proof fn lemma_tail_equal(x: u64, y: u64, i: int)
    requires
        0 <= i < 64,
        forall|j: int| 0 <= j < 64 ==> #[trigger] bit64(x, j) == bit64(y, j),
    ensures
        x >> (i as u64) == y >> (i as u64),
    decreases 64 - i,
{
    assert(bit64(x, i) == bit64(y, i));
    lemma_bit_values(x, i as u64);
    lemma_bit_values(y, i as u64);
    lemma_tail_bits(x, y, i as u64);
    if i < 63 {
        lemma_tail_equal(x, y, i + 1);
    }
}

// ---------------------------------------------------------------------------
// 64×64 transpose
// ---------------------------------------------------------------------------

/// The words with bit `j` of the row number and of the column number swapped
/// (`j` a power of two; rows and columns below 64).
spec fn swapped_bit(a: Seq<u64>, j: int, r: int, c: int) -> bool {
    if (r / j) % 2 == (c / j) % 2 {
        bit64(a[r], c)
    } else if (r / j) % 2 == 0 {
        bit64(a[r + j], c - j)
    } else {
        bit64(a[r - j], c + j)
    }
}

proof fn lemma_delta_swap(x: u64, y: u64, t: u64, j: u64, m: u64, c: u64)
    by (bit_vector)
    requires
        (j == 32 && m == 0x0000_0000_FFFF_FFFF) || (j == 16 && m == 0x0000_FFFF_0000_FFFF) || (j
            == 8 && m == 0x00FF_00FF_00FF_00FF) || (j == 4 && m == 0x0F0F_0F0F_0F0F_0F0F) || (j
            == 2 && m == 0x3333_3333_3333_3333) || (j == 1 && m == 0x5555_5555_5555_5555),
        t == ((x >> j) ^ y) & m,
        c < 64,
    ensures
        (c / j) % 2 == 0 ==> ((x ^ (t << j)) >> c) & 1 == (x >> c) & 1,
        (c / j) % 2 == 1 ==> c >= j && ((x ^ (t << j)) >> c) & 1 == (y >> ((c - j) as u64)) & 1,
        (c / j) % 2 == 1 ==> ((y ^ t) >> c) & 1 == (y >> c) & 1,
        (c / j) % 2 == 0 ==> c + j < 64 && ((y ^ t) >> c) & 1 == (x >> ((c + j) as u64)) & 1,
{
}

/// One stage of the transpose: swap bit `j` of the row number with that of
/// the column number. `m` selects the columns whose bit `j` is clear.
fn transpose_stage(a: &mut [u64; 64], j: usize, m: u64)
    requires
        (j == 32 && m == 0x0000_0000_FFFF_FFFF) || (j == 16 && m == 0x0000_FFFF_0000_FFFF) || (j
            == 8 && m == 0x00FF_00FF_00FF_00FF) || (j == 4 && m == 0x0F0F_0F0F_0F0F_0F0F) || (j
            == 2 && m == 0x3333_3333_3333_3333) || (j == 1 && m == 0x5555_5555_5555_5555),
    ensures
        forall|r: int, c: int|
            0 <= r < 64 && 0 <= c < 64 ==> #[trigger] bit64(final(a)@[r], c) == swapped_bit(
                old(a)@,
                j as int,
                r,
                c,
            ),
{
    let ghost start = a@;
    let mut base: usize = 0;
    while base < 64
        invariant
            base <= 64,
            1 <= j <= 32,
            base as int % (2 * j) == 0,
            (j == 32 && m == 0x0000_0000_FFFF_FFFF) || (j == 16 && m == 0x0000_FFFF_0000_FFFF) || (j
                == 8 && m == 0x00FF_00FF_00FF_00FF) || (j == 4 && m == 0x0F0F_0F0F_0F0F_0F0F) || (j
                == 2 && m == 0x3333_3333_3333_3333) || (j == 1 && m == 0x5555_5555_5555_5555),
            a@.len() == 64,
            start.len() == 64,
            forall|r: int| base <= r < 64 ==> #[trigger] a@[r] == start[r],
            forall|r: int, c: int|
                0 <= r < base && 0 <= c < 64 ==> #[trigger] bit64(a@[r], c) == swapped_bit(
                    start,
                    j as int,
                    r,
                    c,
                ),
        decreases 64 - base,
    {
        proof {
            lemma_next_base(base as int, j as int);
        }
        let mut k: usize = base;
        while k < base + j
            invariant
                base <= k <= base + j,
                base + 2 * j <= 64,
                1 <= j <= 32,
                base as int % (2 * j) == 0,
                (j == 32 && m == 0x0000_0000_FFFF_FFFF) || (j == 16 && m == 0x0000_FFFF_0000_FFFF)
                    || (j == 8 && m == 0x00FF_00FF_00FF_00FF) || (j == 4 && m
                    == 0x0F0F_0F0F_0F0F_0F0F) || (j == 2 && m == 0x3333_3333_3333_3333) || (j == 1
                    && m == 0x5555_5555_5555_5555),
                a@.len() == 64,
                start.len() == 64,
                forall|r: int| base + 2 * j <= r < 64 ==> #[trigger] a@[r] == start[r],
                forall|r: int| k <= r < base + j ==> #[trigger] a@[r] == start[r],
                forall|r: int| k + j <= r < base + 2 * j ==> #[trigger] a@[r] == start[r],
                forall|r: int, c: int|
                    (0 <= r < k || base + j <= r < k + j) && 0 <= c < 64 ==> #[trigger] bit64(
                        a@[r],
                        c,
                    ) == swapped_bit(start, j as int, r, c),
            decreases base + j - k,
        {
            let (x, y) = (a[k], a[k + j]);
            let t: u64 = ((x >> (j as u64)) ^ y) & m;
            let (nx, ny) = (x ^ (t << (j as u64)), y ^ t);
            proof {
                lemma_row_parity(base as int, j as int, k as int);
                assert forall|c: int| 0 <= c < 64 implies bit64(nx, c) == swapped_bit(
                    start,
                    j as int,
                    k as int,
                    c,
                ) && bit64(ny, c) == swapped_bit(start, j as int, k + j, c) by {
                    lemma_delta_swap(x, y, t, j as u64, m, c as u64);
                }
            }
            a[k] = nx;
            a[k + j] = ny;
            k = k + 1;
        }
        base = base + 2 * j;
    }
}

proof fn lemma_row_parity(base: int, j: int, k: int)
    by (nonlinear_arith)
    requires
        j == 1 || j == 2 || j == 4 || j == 8 || j == 16 || j == 32,
        base >= 0,
        base % (2 * j) == 0,
        base <= k < base + j,
    ensures
        (k / j) % 2 == 0,
        ((k + j) / j) % 2 == 1,
{
}

proof fn lemma_next_base(base: int, j: int)
    requires
        j == 1 || j == 2 || j == 4 || j == 8 || j == 16 || j == 32,
        0 <= base < 64,
        base % (2 * j) == 0,
    ensures
        (base + 2 * j) % (2 * j) == 0,
        base + 2 * j <= 64,
{
    if j == 1 {
        assert(base % 2 == 0 && (base + 2) % 2 == 0);
    } else if j == 2 {
        assert(base % 4 == 0 && (base + 4) % 4 == 0);
    } else if j == 4 {
        assert(base % 8 == 0 && (base + 8) % 8 == 0);
    } else if j == 8 {
        assert(base % 16 == 0 && (base + 16) % 16 == 0);
    } else if j == 16 {
        assert(base % 32 == 0 && (base + 32) % 32 == 0);
    } else {
        assert(base % 64 == 0 && (base + 64) % 64 == 0);
    }
}

/// 64×64 bit-matrix transpose, LSB-first bit numbering: output word t bit s
/// = input word s bit t. Hacker's Delight 7-3 delta-swap network, mirrored
/// for LSB-first (high half of a[k] swaps with low half of a[k+j]).
pub fn transpose_64x64(a: &mut [u64; 64])
    ensures
        forall|r: int, c: int|
            0 <= r < 64 && 0 <= c < 64 ==> #[trigger] bit64(final(a)@[r], c) == bit64(
                old(a)@[c],
                r,
            ),
{
    let ghost s0 = a@;
    transpose_stage(a, 32, 0x0000_0000_FFFF_FFFF);
    let ghost s1 = a@;
    transpose_stage(a, 16, 0x0000_FFFF_0000_FFFF);
    let ghost s2 = a@;
    transpose_stage(a, 8, 0x00FF_00FF_00FF_00FF);
    let ghost s3 = a@;
    transpose_stage(a, 4, 0x0F0F_0F0F_0F0F_0F0F);
    let ghost s4 = a@;
    transpose_stage(a, 2, 0x3333_3333_3333_3333);
    let ghost s5 = a@;
    transpose_stage(a, 1, 0x5555_5555_5555_5555);
    proof {
        assert forall|r: int, c: int| 0 <= r < 64 && 0 <= c < 64 implies #[trigger] bit64(
            a@[r],
            c,
        ) == bit64(s0[c], r) by {
            lemma_swap_step(s5, a@, 1, r, c);
            lemma_swap_step(s4, s5, 2, r, c);
            lemma_swap_step(s3, s4, 4, r, c);
            lemma_swap_step(s2, s3, 8, r, c);
            lemma_swap_step(s1, s2, 16, r, c);
            lemma_swap_step(s0, s1, 32, r, c);
        }
    }
}

/// The number with the bits of `c` below bit `j` and those of `r` from there on
/// (`j` a power of two).
spec fn mixed(j: int, r: int, c: int) -> int {
    c % j + (r / j) * j
}

/// Going back through the stage of bit `j`.
proof fn lemma_swap_step(before: Seq<u64>, after: Seq<u64>, j: int, r: int, c: int)
    requires
        j == 1 || j == 2 || j == 4 || j == 8 || j == 16 || j == 32,
        0 <= r < 64,
        0 <= c < 64,
        forall|r: int, c: int|
            0 <= r < 64 && 0 <= c < 64 ==> #[trigger] bit64(after[r], c) == swapped_bit(
                before,
                j,
                r,
                c,
            ),
    ensures
        bit64(after[mixed(j, r, c)], mixed(j, c, r)) == bit64(
            before[mixed(2 * j, r, c)],
            mixed(2 * j, c, r),
        ),
        j == 1 ==> mixed(j, r, c) == r && mixed(j, c, r) == c,
        j == 32 ==> mixed(2 * j, r, c) == c && mixed(2 * j, c, r) == r,
{
    let (x, y) = (mixed(j, r, c), mixed(j, c, r));
    lemma_mixed_numbers(j, r, c);
    lemma_mixed_numbers(j, c, r);
    assert(bit64(after[x], y) == swapped_bit(before, j, x, y));
}

proof fn lemma_mixed_numbers(j: int, r: int, c: int)
    requires
        j == 1 || j == 2 || j == 4 || j == 8 || j == 16 || j == 32,
        0 <= r < 64,
        0 <= c < 64,
    ensures
        0 <= mixed(j, r, c) < 64,
        mixed(j, r, c) / j == r / j,
        mixed(2 * j, r, c) == mixed(j, r, c) - ((r / j) % 2) * j + ((c / j) % 2) * j,
        j == 1 ==> mixed(j, r, c) == r,
        j == 32 ==> mixed(2 * j, r, c) == c,
{
    let (q, s) = (r / j, c / j);
    let n: int = if j == 1 { 64 } else if j == 2 { 32 } else if j == 4 { 16 } else if j == 8 { 8 } else if j == 16 { 4 } else { 2 };
    assert(n * j == 64);
    vstd::arithmetic::div_mod::lemma_fundamental_div_mod(r, j);
    vstd::arithmetic::div_mod::lemma_fundamental_div_mod(c, j);
    let (a, b) = (r % j, c % j);
    vstd::arithmetic::div_mod::lemma_mod_bound(r, j);
    vstd::arithmetic::div_mod::lemma_mod_bound(c, j);
    assert(0 <= q < n && 0 <= s < n) by (nonlinear_arith)
        requires
            r == j * q + a,
            c == j * s + b,
            0 <= a < j,
            0 <= b < j,
            n * j == 64,
            0 <= r < 64,
            0 <= c < 64,
    ;
    let x = b + q * j;
    assert(0 <= x < 64) by (nonlinear_arith)
        requires
            x == b + q * j,
            0 <= b < j,
            0 <= q < n,
            n * j == 64,
    ;
    vstd::arithmetic::div_mod::lemma_fundamental_div_mod_converse(x, j, q, b);
    // the same division with divisor 2j
    let (q2, s2) = (q / 2, s / 2);
    let b2 = b + (s % 2) * j;
    let a2 = a + (q % 2) * j;
    assert(r == q2 * (2 * j) + a2 && 0 <= a2 < 2 * j && c == s2 * (2 * j) + b2 && 0 <= b2 < 2 * j)
        by (nonlinear_arith)
        requires
            r == j * q + a,
            c == j * s + b,
            0 <= a < j,
            0 <= b < j,
            a2 == a + (q % 2) * j,
            b2 == b + (s % 2) * j,
            q2 == q / 2,
            s2 == s / 2,
    ;
    vstd::arithmetic::div_mod::lemma_fundamental_div_mod_converse(r, 2 * j, q2, a2);
    vstd::arithmetic::div_mod::lemma_fundamental_div_mod_converse(c, 2 * j, s2, b2);
    assert(b2 + q2 * (2 * j) == x - (q % 2) * j + (s % 2) * j) by (nonlinear_arith)
        requires
            x == b + q * j,
            b2 == b + (s % 2) * j,
            q2 == q / 2,
    ;
    if j == 32 {
        assert(q < 2 && s < 2);
        assert(q2 == 0);
        assert(s2 == 0);
    }
}

} // verus!
