//! Weights of points with zero coordinates.
use vstd::arithmetic::power2::{lemma2_to64, lemma_pow2_pos, lemma_pow2_strictly_increases, lemma_pow2_unfold, pow2};
use vstd::prelude::*;
use crate::algebra::{lemma_sum_ext, lemma_sum_scale, lemma_sum_split, lemma_sum_zero, sum};
use crate::field::gf2_128::{lemma_add_rules, lemma_add_zero, lemma_mul_units};
use crate::field::F128;
use crate::index::{bit_is_set, index_bit, lemma_high_bit, lemma_pow2_fits, pow2_usize};
use crate::zerocheck::multilinear::{build_eq_table, eq_table, eq_weight, lemma_eq_weight_push};

verus! {

/// The index whose bit `positions[k]` is bit `k` of `c`.
pub open spec fn scattered(positions: Seq<usize>, c: nat) -> nat
    decreases positions.len(),
{
    if positions.len() == 0 {
        0
    } else {
        scattered(positions.drop_last(), c) + if index_bit(c, (positions.len() - 1) as nat) {
            pow2(positions.last() as nat)
        } else {
            0
        }
    }
}

/// Distinct positions below `n`, in order.
pub open spec fn positions_fit(positions: Seq<usize>, n: nat) -> bool {
    &&& forall|i: int| 0 <= i < positions.len() ==> #[trigger] positions[i] < n
    &&& forall|i: int, j: int|
        0 <= i < j < positions.len() ==> #[trigger] positions[i] < #[trigger] positions[j]
}

/// The non-zero part of an `eq` table: a point with a zero coordinate has
/// weight only where the bit of that coordinate is 0.
#[derive(Clone, Debug)]
pub struct SparseEqTensor {
    /// The number of coordinates of the point.
    pub log_len: usize,
    /// The coordinates that are not zero, in order.
    pub live_positions: Vec<usize>,
    /// The weights of the point made of those coordinates.
    pub live_tensor: Vec<F128>,
}

impl SparseEqTensor {
    pub open spec fn wf(&self) -> bool {
        &&& pow2(self.log_len as nat) <= usize::MAX
        &&& positions_fit(self.live_positions@, self.log_len as nat)
        &&& self.live_tensor@.len() == pow2(self.live_positions@.len())
    }

    pub open spec fn entry_term(&self, j: int) -> spec_fn(int) -> F128 {
        |c: int|
            if scattered(self.live_positions@, c as nat) == j {
                self.live_tensor@[c]
            } else {
                F128::zero()
            }
    }

    /// Entry `j` of the full table.
    pub open spec fn entry(&self, j: int) -> F128 {
        sum(self.live_tensor@.len(), self.entry_term(j))
    }

    /// The full table.
    pub open spec fn table(&self) -> Seq<F128> {
        Seq::new(pow2(self.log_len as nat), |j: int| self.entry(j))
    }

    /// The index in the full table of entry `c` of the live part.
    pub fn scatter_idx(&self, c: usize) -> (idx: usize)
        requires
            self.wf(),
        ensures
            idx == scattered(self.live_positions@, c as nat),
            idx < pow2(self.log_len as nat),
    {
        let n: usize = self.live_positions.len();
        let mut idx: usize = 0;
        let mut k: usize = 0;
        proof {
            lemma_scattered_bound(self.live_positions@, self.log_len as nat, c as nat);
            lemma_positions_few(self.live_positions@, self.log_len as nat);
            lemma_pow2_fits(self.log_len as nat);
            assert(self.live_positions@.take(0) =~= Seq::<usize>::empty());
        }
        while k < n
            invariant
                k <= n,
                n == self.live_positions@.len(),
                self.wf(),
                n <= self.log_len < usize::BITS,
                idx == scattered(self.live_positions@.take(k as int), c as nat),
            decreases n - k,
        {
            let ghost next = self.live_positions@.take(k + 1);
            proof {
                assert(next.drop_last() =~= self.live_positions@.take(k as int));
                assert(next.last() == self.live_positions@[k as int]);
                assert(positions_fit(next, self.log_len as nat)) by {
                    assert forall|i: int| 0 <= i < next.len() implies #[trigger] next[i]
                        < self.log_len by {
                        assert(self.live_positions@[i] < self.log_len);
                    }
                    assert forall|i: int, j: int| 0 <= i < j < next.len() implies #[trigger] next[i]
                        < #[trigger] next[j] by {
                        assert(self.live_positions@[i] < self.live_positions@[j]);
                    }
                }
                lemma_scattered_bound(next, self.log_len as nat, c as nat);
                let p = self.live_positions@[k as int] as nat;
                lemma_pow2_strictly_increases(p, self.log_len as nat);
            }
            if bit_is_set(c, k) {
                idx = idx + pow2_usize(self.live_positions[k]);
            }
            k = k + 1;
        }
        assert(self.live_positions@.take(n as int) =~= self.live_positions@);
        idx
    }
}

/// The index lies in the table.
pub proof fn lemma_scattered_bound(positions: Seq<usize>, n: nat, c: nat)
    requires
        positions_fit(positions, n),
    ensures
        scattered(positions, c) < pow2(n),
    decreases positions.len(),
{
    lemma_pow2_pos(n);
    if positions.len() > 0 {
        let p = positions.last() as nat;
        let rest = positions.drop_last();
        assert(positions_fit(rest, p)) by {
            assert forall|i: int| 0 <= i < rest.len() implies #[trigger] rest[i] < p by {
                assert(positions[i] < positions[positions.len() - 1]);
            }
            assert forall|i: int, j: int| 0 <= i < j < rest.len() implies #[trigger] rest[i]
                < #[trigger] rest[j] by {
                assert(positions[i] < positions[j]);
            }
        }
        lemma_scattered_bound(rest, p, c);
        lemma_pow2_unfold(p + 1);
        assert(positions[positions.len() - 1] < n);
        if p + 1 < n {
            lemma_pow2_strictly_increases(p + 1, n);
        }
    }
}

/// The coordinates of a point that are not zero.
pub open spec fn live_positions(point: Seq<F128>) -> Seq<usize>
    decreases point.len(),
{
    if point.len() == 0 {
        Seq::empty()
    } else if point.last() == F128::zero() {
        live_positions(point.drop_last())
    } else {
        live_positions(point.drop_last()).push((point.len() - 1) as usize)
    }
}

/// The point made of the coordinates that are not zero.
pub open spec fn live_point(point: Seq<F128>) -> Seq<F128>
    decreases point.len(),
{
    if point.len() == 0 {
        Seq::empty()
    } else if point.last() == F128::zero() {
        live_point(point.drop_last())
    } else {
        live_point(point.drop_last()).push(point.last())
    }
}

proof fn lemma_live_shape(point: Seq<F128>)
    requires
        point.len() <= usize::MAX,
    ensures
        live_positions(point).len() == live_point(point).len(),
        live_point(point).len() <= point.len(),
        positions_fit(live_positions(point), point.len()),
    decreases point.len(),
{
    if point.len() > 0 {
        lemma_live_shape(point.drop_last());
    }
}

/// Entry `j` of the table with the given live part.
spec fn live_term(point: Seq<F128>, j: int) -> spec_fn(int) -> F128 {
    |c: int|
        if scattered(live_positions(point), c as nat) == j {
            eq_weight(live_point(point), c as nat)
        } else {
            F128::zero()
        }
}

/// Scattering the live weights gives all weights of the point.
proof fn lemma_live_entry(point: Seq<F128>, j: int)
    requires
        point.len() <= usize::MAX,
        0 <= j < pow2(point.len()),
    ensures
        sum(pow2(live_point(point).len()), live_term(point, j)) == eq_weight(point, j as nat),
    decreases point.len(),
{
    lemma2_to64();
    lemma_live_shape(point);
    let f = live_term(point, j);
    if point.len() == 0 {
        assert(sum(1, f) == sum(0, f) + f(0));
        lemma_add_rules(F128::one(), F128::zero(), F128::one(), F128::one());
    } else {
        let rest = point.drop_last();
        let n = rest.len();
        let r = point.last();
        let half = pow2(n);
        assert(point =~= rest.push(r));
        lemma_pow2_unfold(n + 1);
        lemma_live_shape(rest);
        let lo = if j < half {
            j
        } else {
            j - half
        };
        lemma_live_entry(rest, lo);
        lemma_eq_weight_push(rest, r, lo as nat);
        let g = live_term(rest, lo);
        let k = live_point(rest).len();
        let (pos, pt) = (live_positions(rest), live_point(rest));
        if r == F128::zero() {
            if j < half {
                lemma_sum_ext(pow2(k), f, g);
                lemma_mul_units(eq_weight(rest, j as nat));
                lemma_add_rules(F128::one(), F128::zero(), F128::one(), F128::one());
                lemma_add_zero(F128::one());
            } else {
                assert forall|c: int| 0 <= c < pow2(k) implies #[trigger] f(c) == F128::zero() by {
                    lemma_scattered_bound(pos, n, c as nat);
                }
                lemma_sum_zero(pow2(k), f);
                lemma_mul_units(eq_weight(rest, lo as nat));
            }
        } else {
            let pos2 = pos.push(n as usize);
            let pt2 = pt.push(r);
            assert(pos2.drop_last() =~= pos);
            lemma_pow2_unfold(k + 1);
            lemma_sum_split(pow2(k), pow2(k), f);
            let upper = |c: int| f(pow2(k) + c);
            assert forall|c: int| 0 <= c < pow2(k) implies scattered(pos2, c as nat) == #[trigger] scattered(
                pos,
                c as nat,
            ) && scattered(pos2, (c + pow2(k)) as nat) == scattered(pos, c as nat) + half by {
                lemma_high_bit(c as nat, k, k);
                lemma_scatter_low(pos, c as nat, (c + pow2(k)) as nat, k);
            }
            assert forall|c: int| 0 <= c < pow2(k) implies #[trigger] f(c) == (if j < half {
                g(c) * (F128::one() + r)
            } else {
                F128::zero()
            }) by {
                assert(scattered(pos2, c as nat) == scattered(pos, c as nat));
                lemma_scattered_bound(pos, n, c as nat);
                lemma_eq_weight_push(pt, r, c as nat);
                lemma_mul_units(F128::one() + r);
            }
            assert forall|c: int| 0 <= c < pow2(k) implies #[trigger] upper(c) == (if j < half {
                F128::zero()
            } else {
                g(c) * r
            }) by {
                assert(scattered(pos2, c as nat) == scattered(pos, c as nat));
                lemma_scattered_bound(pos, n, c as nat);
                lemma_eq_weight_push(pt, r, c as nat);
                lemma_mul_units(r);
            }
            if j < half {
                lemma_sum_zero(pow2(k), upper);
                lemma_sum_scale(pow2(k), F128::one() + r, g);
                lemma_sum_ext(pow2(k), f, |c: int| g(c) * (F128::one() + r));
            } else {
                lemma_sum_zero(pow2(k), f);
                lemma_sum_scale(pow2(k), r, g);
                lemma_sum_ext(pow2(k), upper, |c: int| g(c) * r);
            }
            lemma_add_zero(sum(pow2(k), f));
            lemma_add_rules(F128::zero(), sum(pow2(k), upper), F128::zero(), F128::zero());
            lemma_add_zero(sum(pow2(k), upper));
        }
    }
}

/// Only the low bits of an index are scattered.
proof fn lemma_scatter_low(positions: Seq<usize>, a: nat, b: nat, k: nat)
    requires
        positions.len() <= k,
        a < pow2(k),
        b == a + pow2(k),
    ensures
        scattered(positions, a) == scattered(positions, b),
    decreases positions.len(),
{
    if positions.len() > 0 {
        lemma_scatter_low(positions.drop_last(), a, b, k);
        lemma_high_bit(a, k, (positions.len() - 1) as nat);
    }
}

/// The `eq` table of a point, without the entries that its zero coordinates
/// make vanish.
pub fn build_eq_sparse(point: &[F128]) -> (out: SparseEqTensor)
    requires
        pow2(point@.len()) <= usize::MAX,
    ensures
        out.wf(),
        out.log_len == point@.len(),
        out.live_positions@ == live_positions(point@),
        out.live_tensor@ == eq_table(live_point(point@)),
        out.table() == eq_table(point@),
{
    let n: usize = point.len();
    let mut positions: Vec<usize> = Vec::new();
    let mut live: Vec<F128> = Vec::new();
    let mut i: usize = 0;
    proof {
        assert(point@.take(0) =~= Seq::<F128>::empty());
    }
    while i < n
        invariant
            i <= n,
            n == point@.len(),
            positions@ == live_positions(point@.take(i as int)),
            live@ == live_point(point@.take(i as int)),
        decreases n - i,
    {
        proof {
            assert(point@.take(i + 1).drop_last() =~= point@.take(i as int));
            assert(point@.take(i + 1).last() == point@[i as int]);
        }
        if !point[i].is_zero() {
            positions.push(i);
            live.push(point[i]);
        }
        i = i + 1;
    }
    proof {
        assert(point@.take(n as int) =~= point@);
        lemma_live_shape(point@);
        if live@.len() < n {
            lemma_pow2_strictly_increases(live@.len(), n as nat);
        }
    }
    let tensor = build_eq_table(&live);
    let out = SparseEqTensor { log_len: n, live_positions: positions, live_tensor: tensor };
    proof {
        assert forall|j: int| 0 <= j < pow2(n as nat) implies #[trigger] out.table()[j] == eq_table(
            point@,
        )[j] by {
            lemma_live_entry(point@, j);
            lemma_sum_ext(pow2(live@.len()), out.entry_term(j), live_term(point@, j));
        }
        assert(out.table() =~= eq_table(point@));
    }
    out
}

/// There are no more positions than coordinates.
proof fn lemma_positions_few(positions: Seq<usize>, n: nat)
    requires
        positions_fit(positions, n),
    ensures
        positions.len() <= n,
    decreases positions.len(),
{
    if positions.len() > 0 {
        let rest = positions.drop_last();
        let p = positions.last() as nat;
        assert(positions[positions.len() - 1] < n);
        assert forall|i: int| 0 <= i < rest.len() implies #[trigger] rest[i] < p by {
            assert(positions[i] < positions[positions.len() - 1]);
        }
        assert forall|i: int, j: int| 0 <= i < j < rest.len() implies #[trigger] rest[i]
            < #[trigger] rest[j] by {
            assert(positions[i] < positions[j]);
        }
        lemma_positions_few(rest, p);
    }
}

} // verus!
