//! Additive NTT over GF(2^8) (Lin–Chung–Han basis).
//!
//! Evaluation domain `W = β + span{1, 2, …, 2^{k-1}}` (additive coset of an
//! F_2 subspace of F_{2^8}). Maximum useful `k` is 7 (|W| = 128); going to k=8
//! exhausts all 256 elements of F_{2^8}.
use vstd::arithmetic::power2::{lemma2_to64, lemma_pow2_pos, lemma_pow2_unfold, pow2};
use vstd::prelude::*;
use crate::field::gf2_8::{
    lemma_add_rules8, lemma_mul_commutes8, lemma_mul_distributes8, lemma_mul_units8, F8,
};
use crate::index::{lemma_pow2_fits, pow2_usize};

verus! {

/// The field element that an integer stands for, by its low eight bits.
pub open spec fn point(n: int) -> F8 {
    F8((n % 256) as u8)
}

/// `W_l(z)`, the polynomial that vanishes on `span{1, 2, …, 2^{l-1}}`:
/// `W_0(z) = z` and `W_{l+1}(z) = W_l(z)·(W_l(z) + W_l(2^l))`.
pub open spec fn vanishing(l: nat, z: F8) -> F8
    decreases l,
{
    if l == 0 {
        z
    } else {
        let m = (l - 1) as nat;
        vanishing(m, z) * (vanishing(m, z) + vanishing(m, point(pow2(m) as int)))
    }
}

/// `Ŵ_l(z) = W_l(z) / W_l(2^l)`.
pub open spec fn normalized8(l: nat, z: F8) -> F8 {
    vanishing(l, point(pow2(l) as int)).inverse() * vanishing(l, z)
}

/// The twiddle of the `b`-th butterfly block on `2^{l+1}` values.
pub open spec fn twiddle8(beta: F8, l: nat, b: int) -> F8 {
    normalized8(l, beta + point(b * pow2(l + 1)))
}

/// The twiddle table of a `2^k`-point domain with offset `beta`: node `2^d + b` of
/// the binary tree of blocks, at position `2^d − 1 + b`, has the `b`-th twiddle of
/// depth `d`.
pub open spec fn is_twiddle_table(tw: Seq<F8>, k: nat, beta: F8) -> bool {
    &&& tw.len() == pow2(k) - 1
    &&& forall|d: nat, b: int|
        d < k && 0 <= b < pow2(d) ==> tw[#[trigger] tree_position(d, b)] == twiddle8(
            beta,
            (k - 1 - d) as nat,
            b,
        )
}

/// Where the table keeps block `b` of depth `d`.
pub open spec fn tree_position(d: nat, b: int) -> int {
    pow2(d) - 1 + b
}

/// `W_l` is additive.
pub proof fn lemma_vanishing_additive(l: nat, a: F8, b: F8)
    ensures
        vanishing(l, a + b) == vanishing(l, a) + vanishing(l, b),
    decreases l,
{
    if l > 0 {
        let m = (l - 1) as nat;
        lemma_vanishing_additive(m, a, b);
        let c = vanishing(m, point(pow2(m) as int));
        let (x, y) = (vanishing(m, a), vanishing(m, b));
        lemma_mul_distributes8(x + y, x + y, c);
        lemma_mul_distributes8(x + y, x, y);
        lemma_mul_distributes8(x, x, y);
        lemma_mul_distributes8(y, x, y);
        lemma_mul_distributes8(c, x, y);
        lemma_mul_distributes8(x, x, c);
        lemma_mul_distributes8(y, y, c);
        lemma_mul_commutes8(x, y);
        // (x² + xy) + (xy + y²) = x² + y²
        lemma_add_rules8(x * y, x * x, y * y, y * y);
        lemma_add_rules8(x * x, x * y, x * y, y * y);
        lemma_add_rules8(x * x, y * y, x * c, y * c);
    }
}

/// Twiddle recurrence used to build the next subspace layer's evaluation points:
/// `next_s(s, root) = s² + root · s = s · (s + root)`.
#[inline]
fn next_s(s: F8, s_at_root: F8) -> (r: F8)
    ensures
        r == s * (s + s_at_root),
{
    proof {
        lemma_mul_distributes8(s, s, s_at_root);
        lemma_mul_commutes8(s, s_at_root);
    }
    s * s + s_at_root * s
}

/// The step from one layer of subspace values to the next.
proof fn lemma_next_layer(l: nat, beta: F8, i: int)
    requires
        i >= 0,
    ensures
        ({
            let z = vanishing(l, beta + point((2 * i) * pow2(l + 1)));
            z * (z + vanishing(l, point(pow2(l) as int)))
        }) == vanishing(l + 1, beta + point(i * pow2(l + 2))),
{
    lemma_pow2_unfold(l + 2);
    assert((2 * i) * pow2(l + 1) == i * pow2(l + 2)) by (nonlinear_arith)
        requires
            pow2(l + 2) == 2 * pow2(l + 1),
    ;
}

/// The value at the next root from the first two points of a layer.
proof fn lemma_next_root(l: nat, beta: F8)
    ensures
        vanishing(l, beta + point(1int * pow2(l + 1))) + vanishing(l, beta + point(0int * pow2(l + 1)))
            == vanishing(l, point(pow2(l + 1) as int)),
{
    assert(1int * pow2(l + 1) == pow2(l + 1) && 0int * pow2(l + 1) == 0) by (nonlinear_arith);
    let p = point(pow2(l + 1) as int);
    lemma_add_rules8(beta, p, p, p);
    lemma_add_rules8(beta, F8::zero(), p, p);
    lemma_vanishing_additive(l, beta + p, beta);
    lemma_add_rules8(beta + p, beta, p, p);
    lemma_add_rules8(p, beta, p, p);
}

/// Build the size-(2^k − 1) twiddle table for the additive NTT.
///
/// Layout: the `2^d` twiddles of depth `d` live at offset `2^d − 1`, so the
/// deepest layer, of butterflies on pairs, comes last.
#[verifier::rlimit(60)]
#[verifier::spinoff_prover]
pub fn compute_twiddles(k: usize, beta: F8) -> (tw: Vec<F8>)
    requires
        pow2(k as nat) <= usize::MAX,
    ensures
        is_twiddle_table(tw@, k as nat, beta),
{
    proof {
        lemma2_to64();
        lemma_pow2_fits(k as nat);
    }
    if k == 0 {
        return Vec::new();
    }
    proof {
        lemma_pow2_unfold(k as nat);
        lemma_pow2_pos((k - 1) as nat);
    }
    let n: usize = pow2_usize(k);
    let mut twiddles: Vec<F8> = vec![F8::zero(); n - 1];
    // Layer 0: 2^{k-1} points beta + {0, 2, 4, ..., 2(len-1)}.
    let mut write_at: usize = pow2_usize(k - 1);
    let mut layer: Vec<F8> = Vec::new();
    let mut i: usize = 0;
    while i < write_at
        invariant
            i <= write_at,
            n == 2 * write_at,
            n <= usize::MAX,
            layer@.len() == i,
            twiddles@.len() == n - 1,
            pow2(1) == 2,
            forall|q: int| 0 <= q < i ==> #[trigger] layer@[q] == beta + point(q * pow2(1)),
            forall|q: int|
                0 <= q < i ==> twiddles@[#[trigger] tree_position((k - 1) as nat, q)] == beta
                    + point(q * pow2(1)),
            write_at == pow2((k - 1) as nat),
        decreases write_at - i,
    {
        let p = beta + F8(((2 * i) % 256) as u8);
        assert(p == beta + point(i * pow2(1)));
        layer.push(p);
        assert(tree_position((k - 1) as nat, i as int) == write_at - 1 + i);
        twiddles.set(write_at - 1 + i, p);
        i = i + 1;
    }
    let mut s_at_root = F8::one();
    let mut l: usize = 0;
    proof {
        assert forall|q: int| 0 <= q < write_at implies #[trigger] layer@[q] == vanishing(
            0,
            beta + point(q * pow2(1)),
        ) by {}
        assert forall|d: nat, b: int|
            k - 1 - l <= d < k && 0 <= b < pow2(d) implies twiddles@[#[trigger] tree_position(
            d,
            b,
        )] == twiddle8(beta, (k - 1 - d) as nat, b) by {
            let z = beta + point(b * pow2(1));
            assert(vanishing(0, point(pow2(0) as int)) == F8::one());
            crate::field::gf2_8::lemma_mul_inverse8(F8::one());
            lemma_mul_units8(F8::one().inverse());
            lemma_mul_units8(z);
        }
    }
    // Subsequent layers: halve the size, advance the recurrence, scale by s⁻¹.
    while l + 1 < k
        invariant
            1 <= k,
            l < k,
            n == pow2(k as nat),
            twiddles@.len() == n - 1,
            write_at == pow2((k - 1 - l) as nat),
            write_at <= n <= usize::MAX,
            layer@.len() >= write_at,
            s_at_root == vanishing(l as nat, point(pow2(l as nat) as int)),
            forall|q: int|
                0 <= q < write_at ==> #[trigger] layer@[q] == vanishing(
                    l as nat,
                    beta + point(q * pow2(l as nat + 1)),
                ),
            forall|d: nat, b: int|
                k - 1 - l <= d < k && 0 <= b < pow2(d) ==> twiddles@[#[trigger] tree_position(d, b)]
                    == twiddle8(beta, (k - 1 - d) as nat, b),
        decreases k - l,
    {
        let ghost start = layer@;
        let ghost before = twiddles@;
        proof {
            lemma_pow2_unfold((k - 1 - l) as nat);
            lemma_pow2_pos((k - 2 - l) as nat);
            lemma_next_root(l as nat, beta);
        }
        write_at = write_at / 2;
        let next_s_root = next_s(layer[1] + layer[0], s_at_root);
        let mut j: usize = 0;
        while j < write_at
            invariant
                j <= write_at,
                2 * write_at <= usize::MAX,
                2 * write_at <= start.len(),
                start.len() == layer@.len(),
                s_at_root == vanishing(l as nat, point(pow2(l as nat) as int)),
                forall|q: int|
                    0 <= q < 2 * write_at ==> #[trigger] start[q] == vanishing(
                        l as nat,
                        beta + point(q * pow2(l as nat + 1)),
                    ),
                forall|q: int| j <= q < layer@.len() ==> #[trigger] layer@[q] == start[q],
                forall|q: int|
                    0 <= q < j ==> #[trigger] layer@[q] == vanishing(
                        l as nat + 1,
                        beta + point(q * pow2(l as nat + 2)),
                    ),
            decreases write_at - j,
        {
            proof {
                assert(layer@[2 * j] == start[2 * j]);
                lemma_next_layer(l as nat, beta, j as int);
            }
            let s = next_s(layer[2 * j], s_at_root);
            layer.set(j, s);
            j = j + 1;
        }
        s_at_root = next_s_root;
        let s_inv = s_at_root.inv();
        let ghost depth = (k - 2 - l) as nat;
        let mut j: usize = 0;
        while j < write_at
            invariant
                j <= write_at,
                l + 1 < k,
                depth == k - 2 - l,
                write_at == pow2(depth),
                2 * write_at <= n,
                twiddles@.len() == n - 1,
                before.len() == n - 1,
                layer@.len() >= write_at,
                s_inv == vanishing(l as nat + 1, point(pow2(l as nat + 1) as int)).inverse(),
                forall|q: int|
                    0 <= q < write_at ==> #[trigger] layer@[q] == vanishing(
                        l as nat + 1,
                        beta + point(q * pow2(l as nat + 2)),
                    ),
                forall|q: int|
                    0 <= q < j ==> twiddles@[#[trigger] tree_position(depth, q)] == twiddle8(
                        beta,
                        l as nat + 1,
                        q,
                    ),
                forall|q: int| 2 * write_at - 1 <= q < n - 1 ==> #[trigger] twiddles@[q] == before[q],
            decreases write_at - j,
        {
            assert(tree_position(depth, j as int) == write_at - 1 + j);
            twiddles.set(write_at - 1 + j, s_inv * layer[j]);
            j = j + 1;
        }
        proof {
            assert forall|d: nat, b: int|
                k - 2 - l <= d < k && 0 <= b < pow2(d) implies twiddles@[#[trigger] tree_position(
                d,
                b,
            )] == twiddle8(beta, (k - 1 - d) as nat, b) by {
                if d == depth {
                } else {
                    let t = tree_position(d, b);
                    lemma_depths_disjoint(depth, d, k as nat, b);
                    assert(twiddles@[t] == before[t]);
                }
            }
        }
        l = l + 1;
    }
    twiddles
}

/// A deeper layer of the table lies behind a shallower one.
proof fn lemma_depths_disjoint(c: nat, d: nat, k: nat, b: int)
    requires
        c < d < k,
        0 <= b < pow2(d),
    ensures
        2 * pow2(c) - 1 <= tree_position(d, b) < pow2(k) - 1,
{
    lemma_pow2_unfold(c + 1);
    if c + 1 < d {
        vstd::arithmetic::power2::lemma_pow2_strictly_increases(c + 1, d);
    }
    lemma_pow2_unfold(d + 1);
    if d + 1 < k {
        vstd::arithmetic::power2::lemma_pow2_strictly_increases(d + 1, k);
    }
}

/// One butterfly layer on a block: `(u, w) ↦ (u + λ·w, w + (u + λ·w))`.
pub open spec fn butterflied(v: Seq<F8>, lambda: F8) -> Seq<F8> {
    let half = v.len() as int / 2;
    Seq::new(
        v.len(),
        |i: int|
            if i < half {
                v[i] + lambda * v[half + i]
            } else {
                v[i] + (v[i - half] + lambda * v[i])
            },
    )
}

/// The butterfly layer undone: `(u, w) ↦ (u + λ·(w + u), w + u)`.
pub open spec fn unbutterflied(v: Seq<F8>, lambda: F8) -> Seq<F8> {
    let half = v.len() as int / 2;
    Seq::new(
        v.len(),
        |i: int|
            if i < half {
                v[i] + lambda * (v[half + i] + v[i])
            } else {
                v[i] + v[i - half]
            },
    )
}

/// The first half of a block.
pub open spec fn lower(v: Seq<F8>) -> Seq<F8> {
    v.subrange(0, v.len() as int / 2)
}

/// The second half of a block.
pub open spec fn upper(v: Seq<F8>) -> Seq<F8> {
    v.subrange(v.len() as int / 2, v.len() as int)
}

/// The forward transform of the block at node `idx` of the tree of blocks: a
/// butterfly layer, then the transforms of the two halves.
pub open spec fn transformed(v: Seq<F8>, tw: Seq<F8>, idx: int) -> Seq<F8>
    decreases v.len(),
{
    if v.len() <= 1 {
        v
    } else {
        let b = butterflied(v, tw[idx - 1]);
        transformed(lower(b), tw, 2 * idx) + transformed(upper(b), tw, 2 * idx + 1)
    }
}

/// The inverse transform of the block at node `idx`.
pub open spec fn untransformed(v: Seq<F8>, tw: Seq<F8>, idx: int) -> Seq<F8>
    decreases v.len(),
{
    if v.len() <= 1 {
        v
    } else {
        unbutterflied(
            untransformed(lower(v), tw, 2 * idx) + untransformed(upper(v), tw, 2 * idx + 1),
            tw[idx - 1],
        )
    }
}

/// A transform keeps the length of the block.
pub proof fn lemma_transform_len(v: Seq<F8>, tw: Seq<F8>, idx: int)
    ensures
        transformed(v, tw, idx).len() == v.len(),
        untransformed(v, tw, idx).len() == v.len(),
    decreases v.len(),
{
    if v.len() > 1 {
        let b = butterflied(v, tw[idx - 1]);
        lemma_transform_len(lower(b), tw, 2 * idx);
        lemma_transform_len(upper(b), tw, 2 * idx + 1);
        lemma_transform_len(lower(v), tw, 2 * idx);
        lemma_transform_len(upper(v), tw, 2 * idx + 1);
    }
}

/// `v` with the block that starts at `at` replaced.
pub open spec fn with_block(v: Seq<F8>, at: int, block: Seq<F8>) -> Seq<F8> {
    v.subrange(0, at) + block + v.subrange(at + block.len(), v.len() as int)
}

/// The butterfly layer on the block of `2·half` values from `at` on.
#[inline]
fn fft_butterfly(v: &mut [F8], at: usize, half: usize, lambda: F8)
    requires
        at + 2 * half <= old(v)@.len(),
    ensures
        final(v)@ == with_block(
            old(v)@,
            at as int,
            butterflied(old(v)@.subrange(at as int, at + 2 * half), lambda),
        ),
{
    let ghost start = v@;
    let n: usize = v.len();
    let mut i: usize = 0;
    while i < half
        invariant
            i <= half,
            at + 2 * half <= n,
            n == v@.len(),
            start.len() == n,
            forall|q: int|
                at <= q < at + i ==> #[trigger] v@[q] == start[q] + lambda * start[q + half],
            forall|q: int|
                at + half <= q < at + half + i ==> #[trigger] v@[q] == start[q] + (start[q - half]
                    + lambda * start[q]),
            forall|q: int|
                0 <= q < n && !(at <= q < at + i) && !(at + half <= q < at + half + i)
                    ==> #[trigger] v@[q] == start[q],
        decreases half - i,
    {
        let w = v[at + half + i];
        let u = v[at + i] + lambda * w;
        v[at + i] = u;
        v[at + half + i] = w + u;
        i = i + 1;
    }
    assert(v@ =~= with_block(
        start,
        at as int,
        butterflied(start.subrange(at as int, at + 2 * half), lambda),
    ));
}

/// The butterfly layer undone on the block of `2·half` values from `at` on.
#[inline]
fn ifft_butterfly(v: &mut [F8], at: usize, half: usize, lambda: F8)
    requires
        at + 2 * half <= old(v)@.len(),
    ensures
        final(v)@ == with_block(
            old(v)@,
            at as int,
            unbutterflied(old(v)@.subrange(at as int, at + 2 * half), lambda),
        ),
{
    let ghost start = v@;
    let n: usize = v.len();
    let mut i: usize = 0;
    while i < half
        invariant
            i <= half,
            at + 2 * half <= n,
            n == v@.len(),
            start.len() == n,
            forall|q: int|
                at <= q < at + i ==> #[trigger] v@[q] == start[q] + lambda * (start[q + half]
                    + start[q]),
            forall|q: int|
                at + half <= q < at + half + i ==> #[trigger] v@[q] == start[q] + start[q - half],
            forall|q: int|
                0 <= q < n && !(at <= q < at + i) && !(at + half <= q < at + half + i)
                    ==> #[trigger] v@[q] == start[q],
        decreases half - i,
    {
        let w = v[at + half + i] + v[at + i];
        v[at + half + i] = w;
        v[at + i] = v[at + i] + lambda * w;
        i = i + 1;
    }
    assert(v@ =~= with_block(
        start,
        at as int,
        unbutterflied(start.subrange(at as int, at + 2 * half), lambda),
    ));
}

/// Node `idx` with a block of `2^j` values has its twiddle and its children in the
/// table.
proof fn lemma_node_in_table(idx: int, j: nat, top: nat)
    requires
        idx >= 1,
        j >= 1,
        (idx + 1) * pow2(j) <= 2 * top,
    ensures
        idx <= top - 1,
        (2 * idx + 1) * pow2((j - 1) as nat) <= 2 * top,
        (2 * idx + 2) * pow2((j - 1) as nat) <= 2 * top,
{
    lemma_pow2_unfold(j);
    lemma_pow2_pos((j - 1) as nat);
    let h = pow2((j - 1) as nat) as int;
    assert((idx + 1) * pow2(j) == (2 * idx + 2) * h) by (nonlinear_arith)
        requires
            pow2(j) == 2 * h,
    ;
    assert((2 * idx + 2) * h == (2 * idx + 1) * h + h) by (nonlinear_arith);
    assert((2 * idx + 2) * h >= 2 * idx + 2) by (nonlinear_arith)
        requires
            h >= 1,
            idx >= 1,
    ;
}

/// The forward transform, in place, of the block of `2^j` values from `at` on.
fn fft_rec(v: &mut [F8], at: usize, len: usize, tw: &Vec<F8>, idx: usize, Ghost(j): Ghost<nat>)
    requires
        len == pow2(j),
        at + len <= old(v)@.len(),
        idx >= 1,
        (idx + 1) * len <= 2 * (tw@.len() + 1),
        2 * (tw@.len() + 1) <= 2 * usize::MAX,
    ensures
        final(v)@ == with_block(
            old(v)@,
            at as int,
            transformed(old(v)@.subrange(at as int, at + len), tw@, idx as int),
        ),
    decreases len,
{
    let total: usize = v.len();
    let ghost start = v@;
    let ghost block = start.subrange(at as int, at + len);
    proof {
        lemma2_to64();
        lemma_transform_len(block, tw@, idx as int);
    }
    if len == 1 {
        assert(v@ =~= with_block(start, at as int, block));
        return;
    }
    proof {
        if j == 0 {
            assert(false);
        }
        lemma_pow2_unfold(j);
        lemma_pow2_pos((j - 1) as nat);
        lemma_node_in_table(idx as int, j, tw@.len() + 1);
    }
    let half: usize = len / 2;
    fft_butterfly(v, at, half, tw[idx - 1]);
    let ghost b = butterflied(block, tw@[idx - 1]);
    assert(v@ =~= with_block(start, at as int, b));
    let ghost lo = v@.subrange(at as int, at + half);
    assert(lo =~= lower(b));
    if half == 1 {
        // The children are single values.
        assert(transformed(lower(b), tw@, 2 * idx) == lower(b));
        assert(transformed(upper(b), tw@, 2 * idx + 1) == upper(b));
        assert(lower(b) + upper(b) =~= b);
        return;
    }
    proof {
        assert(2 * idx + 1 <= tw@.len()) by {
            lemma_pow2_unfold((j - 1) as nat);
            lemma_node_in_table(2 * idx + 1, (j - 1) as nat, tw@.len() + 1);
        }
    }
    fft_rec(v, at, half, tw, 2 * idx, Ghost((j - 1) as nat));
    let ghost first = transformed(lower(b), tw@, 2 * idx);
    proof {
        lemma_transform_len(lower(b), tw@, 2 * idx);
        lemma_transform_len(upper(b), tw@, 2 * idx + 1);
        assert(v@.subrange(at + half, at + half + half) =~= upper(b));
    }
    let ghost mid = v@;
    fft_rec(v, at + half, half, tw, 2 * idx + 1, Ghost((j - 1) as nat));
    proof {
        let second = transformed(upper(b), tw@, 2 * idx + 1);
        assert(v@ =~= with_block(start, at as int, first + second));
    }
}

/// The inverse transform, in place, of the block of `2^j` values from `at` on.
fn ifft_rec(v: &mut [F8], at: usize, len: usize, tw: &Vec<F8>, idx: usize, Ghost(j): Ghost<nat>)
    requires
        len == pow2(j),
        at + len <= old(v)@.len(),
        idx >= 1,
        (idx + 1) * len <= 2 * (tw@.len() + 1),
        2 * (tw@.len() + 1) <= 2 * usize::MAX,
    ensures
        final(v)@ == with_block(
            old(v)@,
            at as int,
            untransformed(old(v)@.subrange(at as int, at + len), tw@, idx as int),
        ),
    decreases len,
{
    let total: usize = v.len();
    let ghost start = v@;
    let ghost block = start.subrange(at as int, at + len);
    proof {
        lemma2_to64();
        lemma_transform_len(block, tw@, idx as int);
    }
    if len == 1 {
        assert(v@ =~= with_block(start, at as int, block));
        return;
    }
    proof {
        if j == 0 {
            assert(false);
        }
        lemma_pow2_unfold(j);
        lemma_pow2_pos((j - 1) as nat);
        lemma_node_in_table(idx as int, j, tw@.len() + 1);
        lemma_transform_len(lower(block), tw@, 2 * idx);
        lemma_transform_len(upper(block), tw@, 2 * idx + 1);
    }
    let half: usize = len / 2;
    let ghost first = untransformed(lower(block), tw@, 2 * idx);
    let ghost second = untransformed(upper(block), tw@, 2 * idx + 1);
    if half > 1 {
        proof {
            assert(2 * idx + 1 <= tw@.len()) by {
                lemma_pow2_unfold((j - 1) as nat);
                lemma_node_in_table(2 * idx + 1, (j - 1) as nat, tw@.len() + 1);
            }
            assert(v@.subrange(at as int, at + half) =~= lower(block));
        }
        ifft_rec(v, at, half, tw, 2 * idx, Ghost((j - 1) as nat));
        assert(v@.subrange(at + half, at + half + half) =~= upper(block));
        ifft_rec(v, at + half, half, tw, 2 * idx + 1, Ghost((j - 1) as nat));
    }
    proof {
        assert(v@ =~= with_block(start, at as int, first + second));
        assert(v@.subrange(at as int, at + 2 * half) =~= first + second);
    }
    ifft_butterfly(v, at, half, tw[idx - 1]);
    assert(v@ =~= with_block(
        start,
        at as int,
        unbutterflied(first + second, tw@[idx - 1]),
    ));
}

/// Additive NTT over GF(2^8) with domain of size 2^k.
///
/// Internal LCH basis: the forward transform maps coefficients in the
/// Lin–Chung–Han basis to evaluations at the 2^k points of the domain.
/// `inverse` is the exact reverse.
#[derive(Clone, Debug)]
pub struct AdditiveNttGf8 {
    k: usize,
    twiddles: Vec<F8>,
}

impl AdditiveNttGf8 {
    /// log₂ of the domain size.
    pub closed spec fn log_size(&self) -> nat {
        self.k as nat
    }

    /// The twiddle table.
    pub closed spec fn table(&self) -> Seq<F8> {
        self.twiddles@
    }

    /// The domain can be indexed and the table has a twiddle per block.
    pub open spec fn wf(&self) -> bool {
        &&& pow2(self.log_size()) <= usize::MAX
        &&& self.table().len() == pow2(self.log_size()) - 1
    }

    /// The transform belongs to the domain with offset `beta`.
    pub open spec fn has_offset(&self, beta: F8) -> bool {
        is_twiddle_table(self.table(), self.log_size(), beta)
    }

    /// The forward transform of a vector of domain size.
    pub open spec fn forward_spec(&self, v: Seq<F8>) -> Seq<F8> {
        transformed(v, self.table(), 1)
    }

    /// The inverse transform of a vector of domain size.
    pub open spec fn inverse_spec(&self, v: Seq<F8>) -> Seq<F8> {
        untransformed(v, self.table(), 1)
    }

    /// Build an NTT for a 2^k-point domain with offset β.
    pub fn new(k: usize, beta: F8) -> (r: Self)
        requires
            pow2(k as nat) <= usize::MAX,
        ensures
            r.wf(),
            r.log_size() == k,
            r.has_offset(beta),
    {
        AdditiveNttGf8 { k, twiddles: compute_twiddles(k, beta) }
    }

    pub fn k(&self) -> (r: usize)
        ensures
            r == self.log_size(),
    {
        self.k
    }

    pub fn domain_size(&self) -> (r: usize)
        requires
            self.wf(),
        ensures
            r == pow2(self.log_size()),
    {
        proof {
            lemma_pow2_fits(self.log_size());
        }
        pow2_usize(self.k)
    }

    pub fn twiddles(&self) -> (r: &[F8])
        ensures
            r@ == self.table(),
    {
        self.twiddles.as_slice()
    }

    /// Coefficients to evaluations, in place.
    pub fn forward(&self, v: &mut [F8])
        requires
            self.wf(),
            old(v)@.len() == pow2(self.log_size()),
        ensures
            final(v)@ == self.forward_spec(old(v)@),
    {
        let n: usize = v.len();
        let ghost start = v@;
        proof {
            assert(start.subrange(0, 0 + n) =~= start);
            lemma_transform_len(start, self.table(), 1);
        }
        fft_rec(v, 0, n, &self.twiddles, 1, Ghost(self.log_size()));
        assert(v@ =~= self.forward_spec(start));
    }

    /// Evaluations to coefficients, in place.
    pub fn inverse(&self, v: &mut [F8])
        requires
            self.wf(),
            old(v)@.len() == pow2(self.log_size()),
        ensures
            final(v)@ == self.inverse_spec(old(v)@),
    {
        let n: usize = v.len();
        let ghost start = v@;
        proof {
            assert(start.subrange(0, 0 + n) =~= start);
            lemma_transform_len(start, self.table(), 1);
        }
        ifft_rec(v, 0, n, &self.twiddles, 1, Ghost(self.log_size()));
        assert(v@ =~= self.inverse_spec(start));
    }
}

} // verus!
