//! Merkle trees over field elements, with SHA-256, and multi-proofs.
//!
//! A tree over `2^d` leaves is stored flat: the leaf hashes, then each level
//! above, the root last. A multi-proof for a set of leaves holds the sibling
//! hashes that cannot be computed from the leaves, level by level from the
//! bottom, from left to right; siblings that the set itself determines are
//! left out.
use vstd::arithmetic::power2::{lemma2_to64, lemma_pow2_pos, lemma_pow2_unfold, pow2};
use vstd::prelude::*;
use vstd::slice::slice_subrange;
use crate::challenger::fs::{element_bytes, elements_bytes};
use crate::field::F128;
use crate::hash::{sha256, sha256_digest, Hash32};
use crate::index::{log2, log2_pow2, power_of_two};

pub mod laws;

verus! {

/// Hashes as plain byte sequences.
pub open spec fn hash_views(v: Seq<Hash32>) -> Seq<Seq<u8>> {
    Seq::new(v.len(), |i: int| v[i]@)
}

/// The leaf `i` of `n` leaves over `values`.
pub open spec fn leaf_values(values: Seq<F128>, n: int, i: int) -> Seq<F128> {
    let len = values.len() as int / n;
    values.subrange(i * len, i * len + len)
}

/// The hashes of the `n` leaves over `values`.
pub open spec fn leaf_hashes(values: Seq<F128>, n: nat) -> Seq<Seq<u8>> {
    Seq::new(n, |i: int| sha256(elements_bytes(leaf_values(values, n as int, i))))
}

/// Level `j` of the tree over the given leaf hashes.
pub open spec fn tree_level(leaves: Seq<Seq<u8>>, j: nat) -> Seq<Seq<u8>>
    decreases j,
{
    if j == 0 {
        leaves
    } else {
        let below = tree_level(leaves, (j - 1) as nat);
        Seq::new(below.len() / 2, |i: int| sha256(below[2 * i] + below[2 * i + 1]))
    }
}

/// The root of the tree over `2^d` leaf hashes.
pub open spec fn merkle_root(leaves: Seq<Seq<u8>>, d: nat) -> Seq<u8> {
    tree_level(leaves, d)[0]
}

/// Where level `j` of a flat tree over `2^d` leaves starts.
pub open spec fn level_start(d: nat, j: nat) -> int {
    pow2(d + 1) - pow2((d + 1 - j) as nat)
}

/// Level `j` of a flat tree over `2^d` leaves.
pub open spec fn flat_level(tree: Seq<Hash32>, d: nat, j: nat) -> Seq<Seq<u8>> {
    Seq::new(pow2((d - j) as nat), |i: int| tree[level_start(d, j) + i]@)
}

/// The flat tree holds the levels over the given leaf hashes.
pub open spec fn is_tree(tree: Seq<Hash32>, leaves: Seq<Seq<u8>>, d: nat) -> bool {
    &&& tree.len() == pow2(d + 1) - 1
    &&& forall|j: nat| j <= d ==> #[trigger] flat_level(tree, d, j) == tree_level(leaves, j)
}

pub proof fn lemma_level_len(leaves: Seq<Seq<u8>>, d: nat, j: nat)
    requires
        leaves.len() == pow2(d),
        j <= d,
    ensures
        tree_level(leaves, j).len() == pow2((d - j) as nat),
    decreases j,
{
    if j > 0 {
        lemma_level_len(leaves, d, (j - 1) as nat);
        lemma_pow2_unfold((d - j + 1) as nat);
    }
}

/// `f128_slice_to_bytes`: the elements as little-endian bytes, 16 per element.
pub fn f128_slice_to_bytes(values: &[F128]) -> (bytes: Vec<u8>)
    ensures
        bytes@ == elements_bytes(values@),
{
    let n: usize = values.len();
    let mut bytes: Vec<u8> = Vec::new();
    let mut i: usize = 0;
    proof {
        assert(values@.take(0) =~= Seq::<F128>::empty());
        assert(bytes@ =~= elements_bytes(values@.take(0)));
    }
    while i < n
        invariant
            i <= n,
            n == values@.len(),
            bytes@ == elements_bytes(values@.take(i as int)),
        decreases n - i,
    {
        let v = values[i];
        let mut lo = vstd::bytes::u64_to_le_bytes(v.lo);
        let mut hi = vstd::bytes::u64_to_le_bytes(v.hi);
        let ghost before = bytes@;
        bytes.append(&mut lo);
        bytes.append(&mut hi);
        proof {
            assert(values@.take(i + 1).drop_last() =~= values@.take(i as int));
            assert(bytes@ =~= before + element_bytes(v));
        }
        i = i + 1;
    }
    proof {
        assert(values@.take(n as int) =~= values@);
    }
    bytes
}

/// The hash of a leaf.
pub fn hash_leaf(bytes: &[u8]) -> (h: Hash32)
    ensures
        h@ == sha256(bytes@),
{
    sha256_digest(bytes)
}

/// The hash of a node from those of its children.
fn hash_pair(left: &Hash32, right: &Hash32) -> (h: Hash32)
    ensures
        h@ == sha256(left@ + right@),
{
    let mut bytes: Vec<u8> = Vec::with_capacity(64);
    bytes.extend_from_slice(left);
    bytes.extend_from_slice(right);
    assert(bytes@ =~= left@ + right@);
    sha256_digest(&bytes)
}

/// Whether two hashes are equal.
pub fn hash_eq(a: &Hash32, b: &Hash32) -> (r: bool)
    ensures
        r == (a@ == b@),
{
    let mut i: usize = 0;
    while i < 32
        invariant
            i <= 32,
            forall|q: int| 0 <= q < i ==> a@[q] == b@[q],
        decreases 32 - i,
    {
        if a[i] != b[i] {
            assert(a@[i as int] != b@[i as int]);
            return false;
        }
        i = i + 1;
    }
    assert(a@ =~= b@);
    true
}

/// The flat tree over the elements of `values`, cut into `n_leaves` leaves.
pub fn merkle_tree(values: &[F128], n_leaves: usize) -> (tree: Vec<Hash32>)
    requires
        power_of_two(n_leaves as nat),
        2 * n_leaves <= usize::MAX,
        values@.len() % (n_leaves as nat) == 0,
    ensures
        is_tree(tree@, leaf_hashes(values@, n_leaves as nat), log2(n_leaves as nat)),
        tree@.len() == 2 * n_leaves - 1,
{
    let ghost d = log2(n_leaves as nat);
    let ghost leaves = leaf_hashes(values@, n_leaves as nat);
    let levels: usize = log2_pow2(n_leaves);
    let total: usize = values.len();
    proof {
        lemma_pow2_pos(d);
    }
    let leaf_len: usize = total / n_leaves;
    proof {
        vstd::arithmetic::div_mod::lemma_fundamental_div_mod(total as int, n_leaves as int);
    }
    let mut tree: Vec<Hash32> = Vec::with_capacity(2 * n_leaves - 1);
    let mut i: usize = 0;
    while i < n_leaves
        invariant
            i <= n_leaves,
            total == values@.len(),
            total == n_leaves * leaf_len,
            leaf_len == total as int / n_leaves as int,
            leaves == leaf_hashes(values@, n_leaves as nat),
            tree@.len() == i,
            forall|q: int| 0 <= q < i ==> (#[trigger] tree@[q])@ == leaves[q],
        decreases n_leaves - i,
    {
        proof {
            assert(0 <= i * leaf_len && i * leaf_len + leaf_len <= n_leaves * leaf_len)
                by (nonlinear_arith)
                requires
                    0 <= i,
                    i + 1 <= n_leaves,
                    0 <= leaf_len,
            ;
        }
        let leaf = slice_subrange(values, i * leaf_len, i * leaf_len + leaf_len);
        let bytes = f128_slice_to_bytes(leaf);
        tree.push(hash_leaf(&bytes));
        i = i + 1;
    }
    proof {
        lemma_pow2_unfold(d + 1);
        assert(level_start(d, 0) == 0);
        assert(flat_level(tree@, d, 0) =~= tree_level(leaves, 0));
    }
    let mut j: usize = 0;
    let mut start: usize = 0;
    let mut len: usize = n_leaves;
    while j < levels
        invariant
            j <= levels,
            levels == d,
            n_leaves == pow2(d),
            2 * n_leaves <= usize::MAX,
            pow2(d + 1) == 2 * n_leaves,
            leaves.len() == n_leaves,
            start == level_start(d, j as nat),
            len == pow2((d - j) as nat),
            tree@.len() == start + len,
            start + 2 * len == 2 * n_leaves,
            forall|q: nat| q <= j ==> #[trigger] flat_level(tree@, d, q) == tree_level(leaves, q),
        decreases levels - j,
    {
        proof {
            lemma_pow2_unfold((d - j) as nat);
            lemma_pow2_unfold((d + 1 - j) as nat);
            lemma_level_len(leaves, d, j as nat);
        }
        let half: usize = len / 2;
        let ghost before = tree@;
        let ghost below = tree_level(leaves, j as nat);
        proof {
            assert forall|q: int| 0 <= q < len implies (#[trigger] before[start + q])@ == below[q] by {
                assert(flat_level(before, d, j as nat)[q] == before[start + q]@);
            }
        }
        let mut i: usize = 0;
        while i < half
            invariant
                i <= half,
                len == 2 * half,
                before.len() == start + len,
                tree@.len() == start + len + i,
                start + 2 * len == 2 * n_leaves,
                2 * n_leaves <= usize::MAX,
                below.len() == len,
                forall|q: int| 0 <= q < before.len() ==> #[trigger] tree@[q] == before[q],
                forall|q: int| 0 <= q < len ==> (#[trigger] before[start + q])@ == below[q],
                forall|q: int|
                    0 <= q < i ==> (#[trigger] tree@[start + len + q])@ == sha256(
                        below[2 * q] + below[2 * q + 1],
                    ),
            decreases half - i,
        {
            assert(before[start + 2 * i]@ == below[2 * i]);
            assert(before[start + (2 * i + 1)]@ == below[2 * i + 1]);
            assert(tree@[start + 2 * i] == before[start + 2 * i]);
            assert(tree@[start + 2 * i + 1] == before[start + (2 * i + 1)]);
            let h = hash_pair(&tree[start + 2 * i], &tree[start + 2 * i + 1]);
            tree.push(h);
            i = i + 1;
        }
        proof {
            assert(level_start(d, (j + 1) as nat) == start + len);
            assert forall|q: nat| q <= j + 1 implies #[trigger] flat_level(tree@, d, q) == tree_level(
                leaves,
                q,
            ) by {
                if q <= j {
                    lemma_level_inside(d, q);
                    lemma_level_end(d, q, j as nat);
                    assert(flat_level(tree@, d, q) =~= flat_level(before, d, q));
                } else {
                    assert(flat_level(tree@, d, q) =~= tree_level(leaves, q));
                }
            }
        }
        start = start + len;
        len = half;
        j = j + 1;
    }
    proof {
        lemma2_to64();
    }
    tree
}

proof fn lemma_level_inside(d: nat, j: nat)
    requires
        j <= d,
    ensures
        0 <= level_start(d, j),
        level_start(d, j) + pow2((d - j) as nat) == level_start(d, j + 1) || j == d,
        level_start(d, j) + pow2((d - j) as nat) < pow2(d + 1),
{
    lemma_pow2_unfold((d + 1 - j) as nat);
    lemma_pow2_pos((d - j) as nat);
    if j > 0 {
        vstd::arithmetic::power2::lemma_pow2_strictly_increases((d + 1 - j) as nat, d + 1);
    }
}

/// Levels lie one after the other.
proof fn lemma_level_end(d: nat, a: nat, b: nat)
    requires
        a <= b <= d,
    ensures
        level_start(d, a) + pow2((d - a) as nat) <= level_start(d, b) + pow2((d - b) as nat),
    decreases b - a,
{
    if a < b {
        lemma_level_end(d, a, (b - 1) as nat);
        lemma_level_inside(d, (b - 1) as nat);
    }
}

// ---------------------------------------------------------------------------
// Multi-proofs
// ---------------------------------------------------------------------------

/// The other child of the parent of node `i`.
pub open spec fn sibling(i: int) -> int {
    if i % 2 == 0 {
        i + 1
    } else {
        i - 1
    }
}

/// The first two of the nodes are siblings.
pub open spec fn paired(p: Seq<int>) -> bool {
    p.len() >= 2 && p[0] % 2 == 0 && p[1] == p[0] + 1
}

/// The parents of the nodes, from left to right.
pub open spec fn parents(p: Seq<int>) -> Seq<int>
    decreases p.len(),
{
    if p.len() == 0 {
        Seq::empty()
    } else if paired(p) {
        seq![p[0] / 2] + parents(p.skip(2))
    } else {
        seq![p[0] / 2] + parents(p.skip(1))
    }
}

/// The siblings of the nodes that are not among the nodes.
pub open spec fn missing(level: Seq<Seq<u8>>, p: Seq<int>) -> Seq<Seq<u8>>
    decreases p.len(),
{
    if p.len() == 0 {
        Seq::empty()
    } else if paired(p) {
        missing(level, p.skip(2))
    } else {
        seq![level[sibling(p[0])]] + missing(level, p.skip(1))
    }
}

/// The multi-proof for the nodes `p` of level `j`.
pub open spec fn multi_proof_from(tree: Seq<Hash32>, d: nat, j: nat, p: Seq<int>) -> Seq<Seq<u8>>
    decreases d - j,
{
    if j >= d {
        Seq::empty()
    } else {
        missing(flat_level(tree, d, j), p) + multi_proof_from(tree, d, j + 1, parents(p))
    }
}

/// `p` in its place among `s`, which is sorted; nothing if it is there already.
pub open spec fn inserted(s: Seq<int>, p: int) -> Seq<int>
    decreases s.len(),
{
    if s.len() == 0 {
        seq![p]
    } else if p < s[0] {
        seq![p] + s
    } else if p == s[0] {
        s
    } else {
        seq![s[0]] + inserted(s.skip(1), p)
    }
}

/// The distinct positions in ascending order.
pub open spec fn sorted_positions(p: Seq<usize>) -> Seq<int>
    decreases p.len(),
{
    if p.len() == 0 {
        Seq::empty()
    } else {
        inserted(sorted_positions(p.drop_last()), p.last() as int)
    }
}

/// The positions as integers.
pub open spec fn as_ints(p: Seq<usize>) -> Seq<int> {
    Seq::new(p.len(), |i: int| p[i] as int)
}

/// Strictly ascending.
pub open spec fn ascending(p: Seq<int>) -> bool {
    forall|i: int, j: int| 0 <= i < j < p.len() ==> #[trigger] p[i] < #[trigger] p[j]
}

pub proof fn lemma_inserted(s: Seq<int>, p: int, lo: int, hi: int)
    requires
        ascending(s),
        lo <= p < hi,
        forall|i: int| 0 <= i < s.len() ==> lo <= #[trigger] s[i] < hi,
    ensures
        ascending(inserted(s, p)),
        inserted(s, p).len() >= 1,
        inserted(s, p).len() <= s.len() + 1,
        forall|i: int| 0 <= i < inserted(s, p).len() ==> lo <= #[trigger] inserted(s, p)[i] < hi,
        inserted(s, p).contains(p),
        forall|x: int| #[trigger] inserted(s, p).contains(x) <==> (x == p || s.contains(x)),
    decreases s.len(),
{
    let r = inserted(s, p);
    if s.len() == 0 {
        assert(r[0] == p);
    } else if p < s[0] {
        assert(r[0] == p);
        assert forall|x: int| #[trigger] r.contains(x) <==> (x == p || s.contains(x)) by {
            if s.contains(x) {
                let i = choose|i: int| 0 <= i < s.len() && s[i] == x;
                assert(r[i + 1] == x);
            }
        }
    } else if p == s[0] {
        assert(s[0] == p);
    } else {
        let t = s.skip(1);
        assert forall|i: int| 0 <= i < t.len() implies s[0] + 1 <= #[trigger] t[i] < hi by {
            assert(s[0] < s[i + 1]);
        }
        lemma_inserted(t, p, s[0] + 1, hi);
        let q = inserted(t, p);
        assert forall|i: int, j: int| 0 <= i < j < r.len() implies #[trigger] r[i] < #[trigger] r[j] by {
            assert(r[j] == q[j - 1]);
            if i > 0 {
                assert(r[i] == q[i - 1]);
            }
        }
        assert forall|i: int| 0 <= i < r.len() implies lo <= #[trigger] r[i] < hi by {
            if i > 0 {
                assert(r[i] == q[i - 1]);
            }
        }
        assert forall|x: int| #[trigger] r.contains(x) <==> (x == p || s.contains(x)) by {
            if r.contains(x) {
                let i = choose|i: int| 0 <= i < r.len() && r[i] == x;
                if i == 0 {
                    assert(s[0] == x);
                } else {
                    assert(q[i - 1] == x);
                    assert(q.contains(x));
                    if x != p {
                        let k = choose|k: int| 0 <= k < t.len() && t[k] == x;
                        assert(s[k + 1] == x);
                    }
                }
            }
            if s.contains(x) {
                let i = choose|i: int| 0 <= i < s.len() && s[i] == x;
                if i == 0 {
                    assert(r[0] == x);
                } else {
                    assert(t[i - 1] == x);
                    assert(q.contains(x));
                    let k = choose|k: int| 0 <= k < q.len() && q[k] == x;
                    assert(r[k + 1] == x);
                }
            }
            if x == p {
                assert(q.contains(x));
                let k = choose|k: int| 0 <= k < q.len() && q[k] == x;
                assert(r[k + 1] == x);
            }
        }
        assert(r.contains(p));
    }
}

/// The sorted positions are ascending and are the given ones.
pub proof fn lemma_sorted_positions(p: Seq<usize>, n: int)
    requires
        forall|i: int| 0 <= i < p.len() ==> 0 <= #[trigger] p[i] < n,
    ensures
        ascending(sorted_positions(p)),
        forall|i: int|
            0 <= i < sorted_positions(p).len() ==> 0 <= #[trigger] sorted_positions(p)[i] < n,
        sorted_positions(p).len() <= p.len(),
        p.len() > 0 ==> sorted_positions(p).len() > 0,
        forall|i: int|
            0 <= i < p.len() ==> sorted_positions(p).contains(#[trigger] p[i] as int),
    decreases p.len(),
{
    if p.len() > 0 {
        let q = p.drop_last();
        lemma_sorted_positions(q, n);
        assert(0 <= p[p.len() - 1] < n);
        lemma_inserted(sorted_positions(q), p.last() as int, 0, n);
        assert forall|i: int| 0 <= i < p.len() implies sorted_positions(p).contains(
            #[trigger] p[i] as int,
        ) by {
            if i < q.len() {
                assert(q[i] == p[i]);
                assert(sorted_positions(q).contains(q[i] as int));
            }
        }
    }
}

/// Insert a position into a sorted list.
pub(crate) fn insert_position(list: &mut Vec<usize>, p: usize)
    ensures
        as_ints(final(list)@) == inserted(as_ints(old(list)@), p as int),
{
    let ghost start = list@;
    let n: usize = list.len();
    let mut i: usize = 0;
    proof {
        assert(as_ints(start).skip(0) =~= as_ints(start));
        assert(as_ints(start).take(0) + inserted(as_ints(start).skip(0), p as int) =~= inserted(
            as_ints(start),
            p as int,
        ));
    }
    while i < n && list[i] < p
        invariant
            i <= n,
            n == list@.len(),
            list@ == start,
            as_ints(start).take(i as int) + inserted(as_ints(start).skip(i as int), p as int)
                == inserted(as_ints(start), p as int),
        decreases n - i,
    {
        proof {
            let s = as_ints(start).skip(i as int);
            assert(s[0] == start[i as int]);
            assert(s.skip(1) =~= as_ints(start).skip(i + 1));
            assert(as_ints(start).take(i as int) + (seq![s[0]] + inserted(s.skip(1), p as int))
                =~= as_ints(start).take(i + 1) + inserted(s.skip(1), p as int));
        }
        i = i + 1;
    }
    proof {
        if i < n {
            assert(as_ints(start).skip(i as int)[0] == start[i as int]);
        }
    }
    if i == n || list[i] != p {
        list.insert(i, p);
        proof {
            let s = as_ints(start).skip(i as int);
            assert(inserted(s, p as int) =~= seq![p as int] + s);
            assert(as_ints(list@) =~= as_ints(start).take(i as int) + (seq![p as int] + s));
        }
    } else {
        proof {
            let s = as_ints(start).skip(i as int);
            assert(as_ints(start).take(i as int) + s =~= as_ints(start));
        }
    }
}

/// The multi-proof for the leaves at `positions` (in any order, with repeats):
/// the shared sibling hashes, level by level.
pub fn merkle_multi_proof(tree: &Vec<Hash32>, n_leaves: usize, positions: &Vec<usize>) -> (out: Vec<
    Hash32,
>)
    requires
        power_of_two(n_leaves as nat),
        2 * n_leaves <= usize::MAX,
        tree@.len() == 2 * n_leaves - 1,
        forall|i: int| 0 <= i < positions@.len() ==> #[trigger] positions@[i] < n_leaves,
    ensures
        hash_views(out@) == multi_proof_from(
            tree@,
            log2(n_leaves as nat),
            0,
            sorted_positions(positions@),
        ),
{
    let ghost d = log2(n_leaves as nat);
    let levels: usize = log2_pow2(n_leaves);
    let mut nodes: Vec<usize> = Vec::new();
    let n: usize = positions.len();
    let mut i: usize = 0;
    proof {
        assert(positions@.take(0) =~= Seq::<usize>::empty());
        assert(as_ints(nodes@) =~= sorted_positions(positions@.take(0)));
    }
    while i < n
        invariant
            i <= n,
            n == positions@.len(),
            as_ints(nodes@) == sorted_positions(positions@.take(i as int)),
        decreases n - i,
    {
        insert_position(&mut nodes, positions[i]);
        proof {
            assert(positions@.take(i + 1).drop_last() =~= positions@.take(i as int));
        }
        i = i + 1;
    }
    proof {
        assert(positions@.take(n as int) =~= positions@);
        lemma_sorted_positions(positions@, n_leaves as int);
        lemma_pow2_unfold(d + 1);
    }
    let ghost all = multi_proof_from(tree@, d, 0, sorted_positions(positions@));
    let mut out: Vec<Hash32> = Vec::new();
    let mut start: usize = 0;
    let mut len: usize = n_leaves;
    let mut j: usize = 0;
    proof {
        assert(hash_views(out@) + all =~= all);
        assert forall|q: int| 0 <= q < nodes@.len() implies #[trigger] nodes@[q] < len by {
            assert(as_ints(nodes@)[q] == nodes@[q]);
        }
    }
    while j < levels
        invariant
            j <= levels,
            levels == d,
            pow2(d + 1) == 2 * n_leaves,
            2 * n_leaves <= usize::MAX,
            tree@.len() == 2 * n_leaves - 1,
            start == level_start(d, j as nat),
            len == pow2((d - j) as nat),
            start + 2 * len == 2 * n_leaves,
            ascending(as_ints(nodes@)),
            forall|q: int| 0 <= q < nodes@.len() ==> #[trigger] nodes@[q] < len,
            all == hash_views(out@) + multi_proof_from(tree@, d, j as nat, as_ints(nodes@)),
        decreases levels - j,
    {
        proof {
            lemma_pow2_unfold((d - j) as nat);
            lemma_pow2_unfold((d + 1 - j) as nat);
        }
        let ghost level = flat_level(tree@, d, j as nat);
        let ghost p = as_ints(nodes@);
        let ghost before = hash_views(out@);
        let n_nodes: usize = nodes.len();
        let mut up: Vec<usize> = Vec::with_capacity(n_nodes);
        let mut i: usize = 0;
        proof {
            assert(p.skip(0) =~= p);
            assert(hash_views(out@) + missing(level, p.skip(0)) =~= before + missing(level, p));
            assert(as_ints(up@) + parents(p.skip(0)) =~= parents(p));
        }
        while i < n_nodes
            invariant
                i <= n_nodes,
                n_nodes == nodes@.len(),
                p == as_ints(nodes@),
                start == level_start(d, j as nat),
                len == pow2((d - j) as nat),
                len % 2 == 0,
                start + 2 * len == 2 * n_leaves,
                2 * n_leaves <= usize::MAX,
                tree@.len() == 2 * n_leaves - 1,
                level == flat_level(tree@, d, j as nat),
                forall|q: int| 0 <= q < nodes@.len() ==> #[trigger] nodes@[q] < len,
                hash_views(out@) + missing(level, p.skip(i as int)) == before + missing(level, p),
                as_ints(up@) + parents(p.skip(i as int)) == parents(p),
            decreases n_nodes - i,
        {
            let node: usize = nodes[i];
            let ghost s = p.skip(i as int);
            let ghost (out0, up0) = (out@, up@);
            assert(s[0] == node);
            assert(node < len);
            up.push(node / 2);
            assert(as_ints(up@) =~= as_ints(up0).push((node / 2) as int));
            if node % 2 == 0 && i + 1 < n_nodes && nodes[i + 1] == node + 1 {
                proof {
                    assert(s[1] == nodes@[i + 1]);
                    assert(paired(s));
                    assert(s.skip(2) =~= p.skip(i + 2));
                    assert(as_ints(up0) + (seq![s[0] / 2] + parents(s.skip(2))) =~= as_ints(up@)
                        + parents(p.skip(i + 2)));
                }
                i = i + 2;
            } else {
                let other: usize = if node % 2 == 0 {
                    node + 1
                } else {
                    node - 1
                };
                out.push(tree[start + other]);
                proof {
                    if i + 1 < n_nodes {
                        assert(s[1] == nodes@[i + 1]);
                    }
                    assert(!paired(s));
                    assert(s.skip(1) =~= p.skip(i + 1));
                    assert(as_ints(up0) + (seq![s[0] / 2] + parents(s.skip(1))) =~= as_ints(up@)
                        + parents(p.skip(i + 1)));
                    assert(level[sibling(s[0])] == tree@[start + other]@);
                    assert(hash_views(out@) =~= hash_views(out0).push(tree@[start + other]@));
                    assert(hash_views(out0) + (seq![level[sibling(s[0])]] + missing(
                        level,
                        s.skip(1),
                    )) =~= hash_views(out@) + missing(level, p.skip(i + 1)));
                }
                i = i + 1;
            }
        }
        proof {
            assert(p.skip(n_nodes as int) =~= Seq::<int>::empty());
            assert(hash_views(out@) + missing(level, Seq::<int>::empty()) =~= hash_views(out@));
            assert(as_ints(up@) + parents(Seq::<int>::empty()) =~= as_ints(up@));
            assert(as_ints(up@) == parents(p));
            lemma_parents(p, len as int);
            assert forall|q: int| 0 <= q < up@.len() implies #[trigger] up@[q] < len / 2 by {
                assert(as_ints(up@)[q] == up@[q]);
            }
            let rest = multi_proof_from(tree@, d, (j + 1) as nat, parents(p));
            assert(before + (missing(level, p) + rest) =~= hash_views(out@) + rest);
            assert(level_start(d, (j + 1) as nat) == start + len);
        }
        start = start + len;
        len = len / 2;
        nodes = up;
        j = j + 1;
    }
    proof {
        assert(hash_views(out@) + Seq::<Seq<u8>>::empty() =~= hash_views(out@));
    }
    out
}

/// The parents of ascending nodes are ascending and half as large.
pub proof fn lemma_parents(p: Seq<int>, len: int)
    requires
        ascending(p),
        len % 2 == 0,
        forall|i: int| 0 <= i < p.len() ==> 0 <= #[trigger] p[i] < len,
    ensures
        ascending(parents(p)),
        parents(p).len() <= p.len(),
        p.len() > 0 ==> parents(p).len() > 0 && parents(p)[0] == p[0] / 2,
        forall|i: int| 0 <= i < parents(p).len() ==> 0 <= #[trigger] parents(p)[i] < len / 2,
    decreases p.len(),
{
    if p.len() > 0 {
        let k: int = if paired(p) {
            2
        } else {
            1
        };
        let t = p.skip(k);
        assert forall|i: int, j: int| 0 <= i < j < t.len() implies #[trigger] t[i] < #[trigger] t[j] by {
            assert(p[i + k] < p[j + k]);
        }
        assert forall|i: int| 0 <= i < t.len() implies 0 <= #[trigger] t[i] < len by {
            assert(p[i + k] < len);
        }
        lemma_parents(t, len);
        let q = parents(t);
        let r = parents(p);
        assert(r =~= seq![p[0] / 2] + q);
        if t.len() > 0 {
            assert(t[0] == p[k]);
            assert(p[0] < p[k]);
            if k == 2 {
                assert(p[1] < p[2]);
            }
            assert(p[0] / 2 < t[0] / 2);
        }
        assert forall|i: int, j: int| 0 <= i < j < r.len() implies #[trigger] r[i] < #[trigger] r[j] by {
            assert(r[j] == q[j - 1]);
            if i > 0 {
                assert(r[i] == q[i - 1]);
            } else if j > 1 {
                assert(q[0] < q[j - 1]);
            }
        }
        assert forall|i: int| 0 <= i < r.len() implies 0 <= #[trigger] r[i] < len / 2 by {
            if i > 0 {
                assert(r[i] == q[i - 1]);
            } else {
                assert(p[0] < len);
            }
        }
    }
}

/// What is left of a verification after a level.
pub struct Climb {
    pub nodes: Seq<int>,
    pub hashes: Seq<Seq<u8>>,
    pub rest: Seq<Seq<u8>>,
}

pub open spec fn prepended(node: int, hash: Seq<u8>, c: Option<Climb>) -> Option<Climb> {
    match c {
        None => None,
        Some(c) => Some(
            Climb { nodes: seq![node] + c.nodes, hashes: seq![hash] + c.hashes, rest: c.rest },
        ),
    }
}

/// One level up: the nodes' parents with their hashes, siblings that are not
/// among the nodes being taken from the proof. `None` if the proof runs out.
pub open spec fn climb(p: Seq<int>, h: Seq<Seq<u8>>, sibs: Seq<Seq<u8>>) -> Option<Climb>
    decreases p.len(),
{
    if p.len() == 0 {
        Some(Climb { nodes: Seq::empty(), hashes: Seq::empty(), rest: sibs })
    } else if paired(p) {
        prepended(p[0] / 2, sha256(h[0] + h[1]), climb(p.skip(2), h.skip(2), sibs))
    } else if sibs.len() == 0 {
        None
    } else if p[0] % 2 == 0 {
        prepended(p[0] / 2, sha256(h[0] + sibs[0]), climb(p.skip(1), h.skip(1), sibs.skip(1)))
    } else {
        prepended(p[0] / 2, sha256(sibs[0] + h[0]), climb(p.skip(1), h.skip(1), sibs.skip(1)))
    }
}

/// Climbing `levels` levels leads to the root, with nothing left over.
pub open spec fn multi_verifies(
    root: Seq<u8>,
    levels: nat,
    p: Seq<int>,
    h: Seq<Seq<u8>>,
    sibs: Seq<Seq<u8>>,
) -> bool
    decreases levels,
{
    if levels == 0 {
        p == seq![0int] && h.len() == 1 && h[0] == root && sibs.len() == 0
    } else {
        match climb(p, h, sibs) {
            None => false,
            Some(c) => multi_verifies(root, (levels - 1) as nat, c.nodes, c.hashes, c.rest),
        }
    }
}

/// `out` before what remains to be climbed.
spec fn climbed(nodes: Seq<int>, hashes: Seq<Seq<u8>>, c: Option<Climb>) -> Option<Climb> {
    match c {
        None => None,
        Some(c) => Some(Climb { nodes: nodes + c.nodes, hashes: hashes + c.hashes, rest: c.rest }),
    }
}

proof fn lemma_climbed_push(
    nodes: Seq<int>,
    hashes: Seq<Seq<u8>>,
    node: int,
    hash: Seq<u8>,
    c: Option<Climb>,
)
    ensures
        climbed(nodes, hashes, prepended(node, hash, c)) == climbed(
            nodes.push(node),
            hashes.push(hash),
            c,
        ),
{
    if let Some(x) = c {
        assert(nodes + (seq![node] + x.nodes) =~= nodes.push(node) + x.nodes);
        assert(hashes + (seq![hash] + x.hashes) =~= hashes.push(hash) + x.hashes);
    }
}

/// Verify the leaf hashes at the given positions (ascending, without repeats)
/// against the root.
pub fn verify_merkle_multi_proof(
    root: &Hash32,
    num_leaves: usize,
    positions: &Vec<usize>,
    hashes: &Vec<Hash32>,
    sibs: &[Hash32],
) -> (ok: bool)
    requires
        power_of_two(num_leaves as nat),
        positions@.len() == hashes@.len(),
    ensures
        ok == multi_verifies(
            root@,
            log2(num_leaves as nat),
            as_ints(positions@),
            hash_views(hashes@),
            hash_views(sibs@),
        ),
{
    let ghost d = log2(num_leaves as nat);
    let levels: usize = log2_pow2(num_leaves);
    let n_sibs: usize = sibs.len();
    let mut nodes: Vec<usize> = Vec::with_capacity(positions.len());
    let mut known: Vec<Hash32> = Vec::with_capacity(positions.len());
    let mut i: usize = 0;
    while i < positions.len()
        invariant
            i <= positions@.len(),
            positions@.len() == hashes@.len(),
            nodes@ == positions@.take(i as int),
            known@ == hashes@.take(i as int),
        decreases positions@.len() - i,
    {
        nodes.push(positions[i]);
        known.push(hashes[i]);
        assert(positions@.take(i + 1) =~= positions@.take(i as int).push(positions@[i as int]));
        assert(hashes@.take(i + 1) =~= hashes@.take(i as int).push(hashes@[i as int]));
        i = i + 1;
    }
    proof {
        assert(positions@.take(i as int) =~= positions@);
        assert(hashes@.take(i as int) =~= hashes@);
    }
    let ghost goal = multi_verifies(
        root@,
        d,
        as_ints(positions@),
        hash_views(hashes@),
        hash_views(sibs@),
    );
    let mut used: usize = 0;
    let mut j: usize = 0;
    proof {
        assert(hash_views(sibs@).skip(0) =~= hash_views(sibs@));
    }
    while j < levels
        invariant
            j <= levels,
            levels == d,
            n_sibs == sibs@.len(),
            used <= n_sibs,
            nodes@.len() == known@.len(),
            d == log2(num_leaves as nat),
            goal == multi_verifies(
                root@,
                d,
                as_ints(positions@),
                hash_views(hashes@),
                hash_views(sibs@),
            ),
            goal == multi_verifies(
                root@,
                (d - j) as nat,
                as_ints(nodes@),
                hash_views(known@),
                hash_views(sibs@).skip(used as int),
            ),
        decreases levels - j,
    {
        let ghost p = as_ints(nodes@);
        let ghost h = hash_views(known@);
        let ghost all = hash_views(sibs@);
        let ghost from = all.skip(used as int);
        let n: usize = nodes.len();
        let mut up: Vec<usize> = Vec::with_capacity(n);
        let mut up_hashes: Vec<Hash32> = Vec::with_capacity(n);
        let mut i: usize = 0;
        proof {
            assert(p.skip(0) =~= p);
            assert(h.skip(0) =~= h);
            let c = climb(p, h, from);
            if let Some(x) = c {
                assert(as_ints(up@) + x.nodes =~= x.nodes);
                assert(hash_views(up_hashes@) + x.hashes =~= x.hashes);
            }
            assert(climbed(as_ints(up@), hash_views(up_hashes@), c) == c);
        }
        while i < n
            invariant
                i <= n,
                n == nodes@.len(),
                n == known@.len(),
                n_sibs == sibs@.len(),
                used <= n_sibs,
                p == as_ints(nodes@),
                h == hash_views(known@),
                all == hash_views(sibs@),
                up@.len() == up_hashes@.len(),
                levels == d,
                j < levels,
                d == log2(num_leaves as nat),
                goal == multi_verifies(
                    root@,
                    d,
                    as_ints(positions@),
                    hash_views(hashes@),
                    hash_views(sibs@),
                ),
                goal == multi_verifies(root@, (d - j) as nat, p, h, from),
                climb(p, h, from) == climbed(
                    as_ints(up@),
                    hash_views(up_hashes@),
                    climb(p.skip(i as int), h.skip(i as int), all.skip(used as int)),
                ),
            decreases n - i,
        {
            let node: usize = nodes[i];
            let ghost (ps, hs, ss) = (p.skip(i as int), h.skip(i as int), all.skip(used as int));
            let ghost (up0, uh0) = (as_ints(up@), hash_views(up_hashes@));
            proof {
                assert(ps[0] == node);
                assert(hs[0] == known@[i as int]@);
                if i + 1 < n {
                    assert(ps[1] == nodes@[i + 1]);
                    assert(hs[1] == known@[i + 1]@);
                }
            }
            if node % 2 == 0 && i + 1 < n && nodes[i + 1] > node && nodes[i + 1] - node == 1 {
                let parent = hash_pair(&known[i], &known[i + 1]);
                up.push(node / 2);
                up_hashes.push(parent);
                proof {
                    assert(paired(ps));
                    assert(ps.skip(2) =~= p.skip(i + 2));
                    assert(hs.skip(2) =~= h.skip(i + 2));
                    lemma_climbed_push(
                        up0,
                        uh0,
                        ps[0] / 2,
                        parent@,
                        climb(ps.skip(2), hs.skip(2), ss),
                    );
                    assert(as_ints(up@) =~= up0.push(ps[0] / 2));
                    assert(hash_views(up_hashes@) =~= uh0.push(parent@));
                }
                i = i + 2;
            } else {
                assert(!paired(ps));
                if used == n_sibs {
                    return false;
                }
                let sib = &sibs[used];
                let parent = if node % 2 == 0 {
                    hash_pair(&known[i], sib)
                } else {
                    hash_pair(sib, &known[i])
                };
                up.push(node / 2);
                up_hashes.push(parent);
                proof {
                    assert(ss[0] == sib@);
                    assert(ps.skip(1) =~= p.skip(i + 1));
                    assert(hs.skip(1) =~= h.skip(i + 1));
                    assert(ss.skip(1) =~= all.skip(used + 1));
                    lemma_climbed_push(
                        up0,
                        uh0,
                        ps[0] / 2,
                        parent@,
                        climb(ps.skip(1), hs.skip(1), ss.skip(1)),
                    );
                    assert(as_ints(up@) =~= up0.push(ps[0] / 2));
                    assert(hash_views(up_hashes@) =~= uh0.push(parent@));
                }
                used = used + 1;
                i = i + 1;
            }
        }
        proof {
            assert(p.skip(n as int) =~= Seq::<int>::empty());
            assert(as_ints(up@) + Seq::<int>::empty() =~= as_ints(up@));
            assert(hash_views(up_hashes@) + Seq::<Seq<u8>>::empty() =~= hash_views(up_hashes@));
        }
        nodes = up;
        known = up_hashes;
        j = j + 1;
    }
    proof {
        assert(hash_views(sibs@).skip(used as int).len() == n_sibs - used);
        if nodes@.len() == 1 {
            assert(as_ints(nodes@) =~= seq![nodes@[0] as int]);
            assert(seq![nodes@[0] as int][0] == nodes@[0]);
            assert(seq![0int][0] == 0);
        }
        assert(as_ints(nodes@).len() == nodes@.len());
        assert(seq![0int].len() == 1);
    }
    nodes.len() == 1 && nodes[0] == 0 && hash_eq(&known[0], root) && used == n_sibs
}

// ---------------------------------------------------------------------------
// Completeness
// ---------------------------------------------------------------------------

/// The hashes of the nodes.
pub open spec fn hashes_at(level: Seq<Seq<u8>>, p: Seq<int>) -> Seq<Seq<u8>> {
    Seq::new(p.len(), |i: int| level[p[i]])
}

/// One level of a proof climbs to the hashes of the parents.
proof fn lemma_climb_level(
    level: Seq<Seq<u8>>,
    above: Seq<Seq<u8>>,
    p: Seq<int>,
    tail: Seq<Seq<u8>>,
)
    requires
        level.len() % 2 == 0,
        above.len() == level.len() / 2,
        forall|i: int|
            0 <= i < above.len() ==> #[trigger] above[i] == sha256(level[2 * i] + level[2 * i + 1]),
        forall|i: int| 0 <= i < p.len() ==> 0 <= #[trigger] p[i] < level.len(),
    ensures
        climb(p, hashes_at(level, p), missing(level, p) + tail) == Some(
            Climb { nodes: parents(p), hashes: hashes_at(above, parents(p)), rest: tail },
        ),
    decreases p.len(),
{
    let h = hashes_at(level, p);
    let sibs = missing(level, p) + tail;
    if p.len() == 0 {
        assert(sibs =~= tail);
        assert(hashes_at(above, parents(p)) =~= Seq::<Seq<u8>>::empty());
    } else {
        assert(0 <= p[0] < level.len());
        let i = p[0] / 2;
        let k: int = if paired(p) {
            2
        } else {
            1
        };
        let t = p.skip(k);
        assert forall|q: int| 0 <= q < t.len() implies 0 <= #[trigger] t[q] < level.len() by {
            assert(0 <= p[q + k] < level.len());
        }
        lemma_climb_level(level, above, t, tail);
        assert(h.skip(k) =~= hashes_at(level, t));
        assert(above[i] == sha256(level[2 * i] + level[2 * i + 1]));
        if k == 2 {
            assert(h[1] == level[p[1]]);
        } else {
            let s = level[sibling(p[0])];
            assert(sibs =~= seq![s] + (missing(level, t) + tail));
            assert(sibs[0] == s);
            assert(sibs.skip(1) =~= missing(level, t) + tail);
        }
        assert(hashes_at(above, parents(p)) =~= seq![above[i]] + hashes_at(above, parents(t)));
    }
}

proof fn lemma_multi_proof_level(leaves: Seq<Seq<u8>>, d: nat, j: nat, p: Seq<int>)
    requires
        leaves.len() == pow2(d),
        j <= d,
        p.len() > 0,
        ascending(p),
        forall|i: int| 0 <= i < p.len() ==> 0 <= #[trigger] p[i] < pow2((d - j) as nat),
    ensures
        multi_verifies(
            merkle_root(leaves, d),
            (d - j) as nat,
            p,
            hashes_at(tree_level(leaves, j), p),
            multi_proof_of(leaves, d, j, p),
        ),
    decreases d - j,
{
    lemma2_to64();
    if j == d {
        assert(p[0] == 0);
        if p.len() > 1 {
            assert(p[0] < p[1]);
        }
        assert(p =~= seq![0int]);
    } else {
        let level = tree_level(leaves, j);
        let above = tree_level(leaves, j + 1);
        lemma_level_len(leaves, d, j);
        lemma_pow2_unfold((d - j) as nat);
        let tail = multi_proof_of(leaves, d, j + 1, parents(p));
        lemma_climb_level(level, above, p, tail);
        lemma_parents(p, level.len() as int);
        lemma_multi_proof_level(leaves, d, j + 1, parents(p));
    }
}

/// The multi-proof over the given leaf hashes for a non-empty set of leaves
/// verifies the hashes of those leaves against the root.
pub proof fn lemma_leaves_verify(leaves: Seq<Seq<u8>>, d: nat, positions: Seq<usize>)
    requires
        leaves.len() == pow2(d),
        positions.len() > 0,
        forall|i: int| 0 <= i < positions.len() ==> #[trigger] positions[i] < pow2(d),
    ensures
        multi_verifies(
            merkle_root(leaves, d),
            d,
            sorted_positions(positions),
            hashes_at(leaves, sorted_positions(positions)),
            multi_proof_of(leaves, d, 0, sorted_positions(positions)),
        ),
{
    lemma_sorted_positions(positions, pow2(d) as int);
    lemma_multi_proof_level(leaves, d, 0, sorted_positions(positions));
}

/// The multi-proof that a tree gives for a non-empty set of leaves verifies
/// the hashes of those leaves against its root.
pub proof fn lemma_multi_proof_verifies(
    tree: Seq<Hash32>,
    leaves: Seq<Seq<u8>>,
    d: nat,
    positions: Seq<usize>,
)
    requires
        leaves.len() == pow2(d),
        is_tree(tree, leaves, d),
        positions.len() > 0,
        forall|i: int| 0 <= i < positions.len() ==> #[trigger] positions[i] < pow2(d),
    ensures
        multi_verifies(
            merkle_root(leaves, d),
            d,
            sorted_positions(positions),
            hashes_at(leaves, sorted_positions(positions)),
            multi_proof_from(tree, d, 0, sorted_positions(positions)),
        ),
{
    lemma_leaves_verify(leaves, d, positions);
    lemma_multi_proof_of_tree(tree, leaves, d, 0, sorted_positions(positions));
}

/// The last entry of a flat tree is the root.
pub proof fn lemma_root_is_last(tree: Seq<Hash32>, leaves: Seq<Seq<u8>>, d: nat)
    requires
        is_tree(tree, leaves, d),
    ensures
        tree.len() >= 1,
        tree[tree.len() - 1]@ == merkle_root(leaves, d),
{
    lemma2_to64();
    lemma_pow2_unfold(d + 1);
    lemma_pow2_pos(d);
    assert(flat_level(tree, d, d) == tree_level(leaves, d));
    assert(flat_level(tree, d, d)[0] == tree[level_start(d, d)]@);
}

/// The multi-proof for the nodes `p` of level `j`, from the leaf hashes.
pub open spec fn multi_proof_of(leaves: Seq<Seq<u8>>, d: nat, j: nat, p: Seq<int>) -> Seq<Seq<u8>>
    decreases d - j,
{
    if j >= d {
        Seq::empty()
    } else {
        missing(tree_level(leaves, j), p) + multi_proof_of(leaves, d, j + 1, parents(p))
    }
}

/// The multi-proof that a flat tree gives is that of its leaf hashes.
pub proof fn lemma_multi_proof_of_tree(
    tree: Seq<Hash32>,
    leaves: Seq<Seq<u8>>,
    d: nat,
    j: nat,
    p: Seq<int>,
)
    requires
        is_tree(tree, leaves, d),
    ensures
        multi_proof_from(tree, d, j, p) == multi_proof_of(leaves, d, j, p),
    decreases d - j,
{
    if j < d {
        lemma_multi_proof_of_tree(tree, leaves, d, j + 1, parents(p));
        assert(flat_level(tree, d, j) == tree_level(leaves, j));
    }
}

} // verus!
