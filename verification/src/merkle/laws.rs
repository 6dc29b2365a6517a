//! What a Merkle root binds, as far as no collision of the hash is at hand.
use vstd::arithmetic::power2::{lemma2_to64, lemma_pow2_unfold, pow2};
use vstd::prelude::*;
use crate::hash::sha256;
use crate::merkle::{climb, lemma_level_len, merkle_root, multi_verifies, paired, tree_level, Climb};

verus! {

/// Digests have 32 bytes.
pub open spec fn digests_have_32_bytes() -> bool {
    forall|x: Seq<u8>| #[trigger] sha256(x).len() == 32
}

/// All hashes have 32 bytes.
pub open spec fn have_32_bytes(hashes: Seq<Seq<u8>>) -> bool {
    forall|i: int| 0 <= i < hashes.len() ==> (#[trigger] hashes[i]).len() == 32
}

/// What node `i` of level `j + 1` is the hash of: its left child, then its right one.
pub open spec fn children(leaves: Seq<Seq<u8>>, j: nat, i: int) -> Seq<u8> {
    tree_level(leaves, j)[2 * i] + tree_level(leaves, j)[2 * i + 1]
}

/// Other bytes with the hash of a node of the tree over `2^d` leaves.
pub open spec fn second_preimage(leaves: Seq<Seq<u8>>, d: nat, j: nat, i: int, u: Seq<u8>) -> bool {
    &&& j < d
    &&& 0 <= i < pow2((d - j - 1) as nat)
    &&& u != children(leaves, j, i)
    &&& sha256(u) == sha256(children(leaves, j, i))
}

/// There are other bytes with the hash of a node of the tree.
pub open spec fn has_second_preimage(leaves: Seq<Seq<u8>>, d: nat) -> bool {
    exists|j: nat, i: int, u: Seq<u8>| #[trigger] second_preimage(leaves, d, j, i, u)
}

proof fn lemma_level_bytes(leaves: Seq<Seq<u8>>, d: nat, j: nat)
    requires
        digests_have_32_bytes(),
        have_32_bytes(leaves),
        leaves.len() == pow2(d),
        j <= d,
    ensures
        have_32_bytes(tree_level(leaves, j)),
{
    lemma_level_len(leaves, d, j);
}

proof fn lemma_halves(a: Seq<u8>, b: Seq<u8>, c: Seq<u8>, d: Seq<u8>)
    requires
        a + b == c + d,
        a.len() == c.len(),
    ensures
        a == c,
        b == d,
{
    assert((a + b).take(a.len() as int) =~= a);
    assert((c + d).take(a.len() as int) =~= c);
    assert((a + b).skip(a.len() as int) =~= b);
    assert((c + d).skip(a.len() as int) =~= d);
}

proof fn lemma_levels_agree(x: Seq<Seq<u8>>, y: Seq<Seq<u8>>, d: nat, j: nat)
    requires
        digests_have_32_bytes(),
        x.len() == pow2(d),
        y.len() == pow2(d),
        have_32_bytes(x),
        have_32_bytes(y),
        merkle_root(x, d) == merkle_root(y, d),
        j <= d,
    ensures
        tree_level(x, j) == tree_level(y, j) || has_second_preimage(x, d),
    decreases d - j,
{
    lemma_level_len(x, d, j);
    lemma_level_len(y, d, j);
    lemma2_to64();
    let (lx, ly) = (tree_level(x, j), tree_level(y, j));
    if j == d {
        assert(lx =~= ly);
    } else {
        lemma_levels_agree(x, y, d, j + 1);
        lemma_level_len(x, d, j + 1);
        lemma_pow2_unfold((d - j) as nat);
        lemma_level_bytes(x, d, j);
        lemma_level_bytes(y, d, j);
        if !has_second_preimage(x, d) {
            assert forall|q: int| 0 <= q < lx.len() implies lx[q] == ly[q] by {
                let i = q / 2;
                assert(tree_level(x, j + 1)[i] == sha256(children(x, j, i)));
                assert(tree_level(y, j + 1)[i] == sha256(children(y, j, i)));
                if children(y, j, i) != children(x, j, i) {
                    assert(second_preimage(x, d, j, i, children(y, j, i)));
                }
                lemma_halves(lx[2 * i], lx[2 * i + 1], ly[2 * i], ly[2 * i + 1]);
            }
            assert(lx =~= ly);
        }
    }
}

/// A root binds its leaves: two rows of leaf hashes with the same root are the same, or
/// there are other bytes with the hash of a node of the tree.
pub proof fn lemma_root_binds_leaves(x: Seq<Seq<u8>>, y: Seq<Seq<u8>>, d: nat)
    requires
        x.len() == pow2(d),
        y.len() == pow2(d),
        have_32_bytes(x),
        have_32_bytes(y),
        merkle_root(x, d) == merkle_root(y, d),
    ensures
        digests_have_32_bytes() ==> x == y || has_second_preimage(x, d),
{
    if digests_have_32_bytes() {
        lemma_levels_agree(x, y, d, 0);
    }
}

/// The shape of what one level up gives.
proof fn lemma_climb_shape(p: Seq<int>, h: Seq<Seq<u8>>, sibs: Seq<Seq<u8>>, c: Climb, n: int)
    requires
        digests_have_32_bytes(),
        climb(p, h, sibs) == Some(c),
        have_32_bytes(sibs),
        n >= 0,
        forall|k: int| 0 <= k < p.len() ==> 0 <= #[trigger] p[k] < 2 * n,
    ensures
        c.nodes.len() == c.hashes.len(),
        have_32_bytes(c.hashes),
        have_32_bytes(c.rest),
        forall|k: int| 0 <= k < c.nodes.len() ==> 0 <= #[trigger] c.nodes[k] < n,
    decreases p.len(),
{
    if p.len() > 0 {
        let k: int = if paired(p) {
            2
        } else {
            1
        };
        let rest = if paired(p) {
            sibs
        } else {
            sibs.skip(1)
        };
        let next = climb(p.skip(k), h.skip(k), rest);
        assert(next is Some);
        assert forall|q: int| 0 <= q < p.skip(k).len() implies 0 <= #[trigger] p.skip(k)[q] < 2
            * n by {
            assert(p.skip(k)[q] == p[q + k]);
        }
        lemma_climb_shape(p.skip(k), h.skip(k), rest, next->Some_0, n);
        let tail = next->Some_0;
        assert(c.nodes =~= seq![p[0] / 2] + tail.nodes);
        assert forall|q: int| 0 <= q < c.nodes.len() implies 0 <= #[trigger] c.nodes[q] < n by {
            if q > 0 {
                assert(c.nodes[q] == tail.nodes[q - 1]);
            }
        }
        assert forall|q: int| 0 <= q < c.hashes.len() implies (#[trigger] c.hashes[q]).len()
            == 32 by {
            if q > 0 {
                assert(c.hashes[q] == tail.hashes[q - 1]);
            }
        }
    }
}

/// Where the hashes one level up are those of the tree, so are the hashes below.
proof fn lemma_climb_binds(
    leaves: Seq<Seq<u8>>,
    d: nat,
    j: nat,
    p: Seq<int>,
    h: Seq<Seq<u8>>,
    sibs: Seq<Seq<u8>>,
    c: Climb,
)
    requires
        digests_have_32_bytes(),
        !has_second_preimage(leaves, d),
        have_32_bytes(leaves),
        leaves.len() == pow2(d),
        j < d,
        climb(p, h, sibs) == Some(c),
        h.len() == p.len(),
        have_32_bytes(h),
        have_32_bytes(sibs),
        forall|k: int| 0 <= k < p.len() ==> 0 <= #[trigger] p[k] < pow2((d - j) as nat),
        c.nodes.len() == c.hashes.len(),
        forall|k: int|
            0 <= k < c.nodes.len() ==> #[trigger] c.hashes[k] == tree_level(leaves, j + 1)[c.nodes[k]],
    ensures
        forall|k: int| 0 <= k < p.len() ==> #[trigger] h[k] == tree_level(leaves, j)[p[k]],
    decreases p.len(),
{
    if p.len() > 0 {
        lemma_pow2_unfold((d - j) as nat);
        lemma_level_len(leaves, d, j);
        lemma_level_len(leaves, d, j + 1);
        lemma_level_bytes(leaves, d, j);
        let level = tree_level(leaves, j);
        let k: int = if paired(p) {
            2
        } else {
            1
        };
        let rest = if paired(p) {
            sibs
        } else {
            sibs.skip(1)
        };
        let tail = climb(p.skip(k), h.skip(k), rest)->Some_0;
        assert(climb(p.skip(k), h.skip(k), rest) is Some);
        let i = p[0] / 2;
        assert(c.nodes[0] == i);
        assert(c.hashes[0] == tree_level(leaves, j + 1)[c.nodes[0]]);
        assert(0 <= p[0] < pow2((d - j) as nat));
        let u = if paired(p) {
            h[0] + h[1]
        } else if p[0] % 2 == 0 {
            h[0] + sibs[0]
        } else {
            sibs[0] + h[0]
        };
        assert(c.hashes[0] == sha256(u));
        assert(tree_level(leaves, j + 1)[i] == sha256(children(leaves, j, i)));
        if u != children(leaves, j, i) {
            assert(second_preimage(leaves, d, j, i, u));
        }
        let (l, r) = (level[2 * i], level[2 * i + 1]);
        assert(l.len() == 32 && r.len() == 32);
        if paired(p) {
            lemma_halves(h[0], h[1], l, r);
            assert(p[1] == p[0] + 1);
        } else if p[0] % 2 == 0 {
            lemma_halves(h[0], sibs[0], l, r);
        } else {
            lemma_halves(sibs[0], h[0], l, r);
        }
        assert forall|q: int| 0 <= q < p.skip(k).len() implies 0 <= #[trigger] p.skip(k)[q] < pow2(
            (d - j) as nat,
        ) by {
            assert(p.skip(k)[q] == p[q + k]);
        }
        assert forall|q: int| 0 <= q < tail.nodes.len() implies #[trigger] tail.hashes[q]
            == tree_level(leaves, j + 1)[tail.nodes[q]] by {
            assert(c.hashes[q + 1] == tail.hashes[q]);
            assert(c.nodes[q + 1] == tail.nodes[q]);
        }
        assert(tail.nodes.len() == tail.hashes.len()) by {
            assert(c.nodes.len() == 1 + tail.nodes.len());
            assert(c.hashes.len() == 1 + tail.hashes.len());
        }
        assert(have_32_bytes(rest));
        assert(have_32_bytes(h.skip(k)));
        lemma_climb_binds(leaves, d, j, p.skip(k), h.skip(k), rest, tail);
        assert forall|q: int| 0 <= q < p.len() implies #[trigger] h[q] == level[p[q]] by {
            if q >= k {
                assert(h.skip(k)[q - k] == level[p.skip(k)[q - k]]);
            }
        }
    }
}

proof fn lemma_multi_proof_binds_from(
    leaves: Seq<Seq<u8>>,
    d: nat,
    j: nat,
    p: Seq<int>,
    h: Seq<Seq<u8>>,
    sibs: Seq<Seq<u8>>,
)
    requires
        digests_have_32_bytes(),
        !has_second_preimage(leaves, d),
        have_32_bytes(leaves),
        leaves.len() == pow2(d),
        j <= d,
        multi_verifies(merkle_root(leaves, d), (d - j) as nat, p, h, sibs),
        h.len() == p.len(),
        have_32_bytes(h),
        have_32_bytes(sibs),
        forall|k: int| 0 <= k < p.len() ==> 0 <= #[trigger] p[k] < pow2((d - j) as nat),
    ensures
        forall|k: int| 0 <= k < p.len() ==> #[trigger] h[k] == tree_level(leaves, j)[p[k]],
    decreases d - j,
{
    if j < d {
        let c = climb(p, h, sibs)->Some_0;
        lemma_pow2_unfold((d - j) as nat);
        lemma_climb_shape(p, h, sibs, c, pow2((d - j - 1) as nat) as int);
        lemma_multi_proof_binds_from(leaves, d, j + 1, c.nodes, c.hashes, c.rest);
        lemma_climb_binds(leaves, d, j, p, h, sibs, c);
    }
}

/// A multi-proof binds what it opens: where leaf hashes verify against the root of a tree,
/// they are the tree's at those positions, or there are other bytes with the hash of a
/// node of the tree.
pub proof fn lemma_multi_proof_binds(
    leaves: Seq<Seq<u8>>,
    d: nat,
    p: Seq<int>,
    h: Seq<Seq<u8>>,
    sibs: Seq<Seq<u8>>,
    k: int,
)
    requires
        leaves.len() == pow2(d),
        have_32_bytes(leaves),
        multi_verifies(merkle_root(leaves, d), d, p, h, sibs),
        h.len() == p.len(),
        have_32_bytes(h),
        have_32_bytes(sibs),
        forall|q: int| 0 <= q < p.len() ==> 0 <= #[trigger] p[q] < pow2(d),
        0 <= k < p.len(),
    ensures
        digests_have_32_bytes() ==> h[k] == leaves[p[k]] || has_second_preimage(leaves, d),
{
    if digests_have_32_bytes() && !has_second_preimage(leaves, d) {
        lemma_multi_proof_binds_from(leaves, d, 0, p, h, sibs);
    }
}

/// A level takes as many siblings as the nodes tell, whatever the hashes.
proof fn lemma_climb_takes(
    p: Seq<int>,
    h: Seq<Seq<u8>>,
    sibs: Seq<Seq<u8>>,
    g: Seq<Seq<u8>>,
    others: Seq<Seq<u8>>,
)
    requires
        climb(p, h, sibs) is Some,
        climb(p, g, others) is Some,
    ensures
        ({
            let (c, e) = (climb(p, h, sibs)->Some_0, climb(p, g, others)->Some_0);
            &&& c.nodes == e.nodes
            &&& sibs.len() - c.rest.len() == others.len() - e.rest.len()
        }),
    decreases p.len(),
{
    if p.len() > 0 {
        if paired(p) {
            lemma_climb_takes(p.skip(2), h.skip(2), sibs, g.skip(2), others);
        } else {
            lemma_climb_takes(p.skip(1), h.skip(1), sibs.skip(1), g.skip(1), others.skip(1));
        }
    }
}

/// The positions tell how many siblings a multi-proof has: of two that verify for the same
/// positions, be it against different roots, neither has a sibling more.
pub proof fn lemma_no_sibling_is_left_over(
    levels: nat,
    p: Seq<int>,
    root: Seq<u8>,
    h: Seq<Seq<u8>>,
    sibs: Seq<Seq<u8>>,
    other_root: Seq<u8>,
    g: Seq<Seq<u8>>,
    others: Seq<Seq<u8>>,
)
    requires
        multi_verifies(root, levels, p, h, sibs),
        multi_verifies(other_root, levels, p, g, others),
    ensures
        sibs.len() == others.len(),
    decreases levels,
{
    if levels > 0 {
        lemma_climb_takes(p, h, sibs, g, others);
        let (c, e) = (climb(p, h, sibs)->Some_0, climb(p, g, others)->Some_0);
        lemma_no_sibling_is_left_over(
            (levels - 1) as nat,
            c.nodes,
            root,
            c.hashes,
            c.rest,
            other_root,
            e.hashes,
            e.rest,
        );
    }
}

/// The levels over a range of leaves are a range of the levels.
proof fn lemma_levels_of_half(leaves: Seq<Seq<u8>>, d: nat, j: nat, right: bool)
    requires
        leaves.len() == pow2(d + 1),
        j <= d,
    ensures
        ({
            let h = pow2(d) as int;
            let w = pow2((d - j) as nat) as int;
            let half = if right {
                leaves.skip(h)
            } else {
                leaves.take(h)
            };
            tree_level(half, j) == (if right {
                tree_level(leaves, j).skip(w)
            } else {
                tree_level(leaves, j).take(w)
            })
        }),
    decreases j,
{
    let h = pow2(d) as int;
    let w = pow2((d - j) as nat) as int;
    let half = if right {
        leaves.skip(h)
    } else {
        leaves.take(h)
    };
    lemma_pow2_unfold(d + 1);
    lemma_level_len(leaves, d + 1, j);
    lemma_level_len(half, d, j);
    lemma_pow2_unfold((d + 1 - j) as nat);
    if j > 0 {
        let i = (j - 1) as nat;
        lemma_levels_of_half(leaves, d, i, right);
        lemma_level_len(leaves, d + 1, i);
        lemma_level_len(half, d, i);
        lemma_pow2_unfold((d - i) as nat);
        let (below, all) = (tree_level(half, i), tree_level(leaves, i));
        let shift = if right {
            w
        } else {
            0
        };
        assert forall|q: int| 0 <= q < w implies #[trigger] tree_level(half, j)[q] == tree_level(
            leaves,
            j,
        )[shift + q] by {
            assert(below[2 * q] == all[2 * (shift + q)]);
            assert(below[2 * q + 1] == all[2 * (shift + q) + 1]);
        }
    }
    assert(tree_level(half, j) =~= if right {
        tree_level(leaves, j).skip(w)
    } else {
        tree_level(leaves, j).take(w)
    });
}

/// The root from the top: that of one leaf is the leaf, and that of two halves is the hash of
/// the root of the left one followed by the root of the right one.
pub proof fn lemma_root_of_halves(leaves: Seq<Seq<u8>>, d: nat)
    requires
        leaves.len() == pow2(d),
    ensures
        d == 0 ==> merkle_root(leaves, d) == leaves[0],
        d > 0 ==> merkle_root(leaves, d) == sha256(
            merkle_root(leaves.take(pow2((d - 1) as nat) as int), (d - 1) as nat) + merkle_root(
                leaves.skip(pow2((d - 1) as nat) as int),
                (d - 1) as nat,
            ),
        ),
{
    if d > 0 {
        let c = (d - 1) as nat;
        vstd::arithmetic::power2::lemma2_to64();
        lemma_level_len(leaves, d, c);
        lemma_levels_of_half(leaves, c, c, false);
        lemma_levels_of_half(leaves, c, c, true);
    }
}

} // verus!
