//! The product sumcheck over the top variables of two tables.
use vstd::prelude::*;
use crate::algebra::sum;
use crate::field::F128;
use crate::zerocheck::multilinear::{bound_top, round_message};

verus! {

/// One round of product-sumcheck on `(c, z)`: compute `(q(1), q(∞))` =
/// `(Σ c_hi·z_hi, Σ (c_hi+c_lo)·(z_hi+z_lo))` over the top-bit split. The
/// `len()` of `c` and `z` is even; `half = len/2`.
pub(crate) fn sumcheck_round_eval_par(c: &[F128], z: &[F128]) -> (r: (F128, F128))
    requires
        c@.len() == z@.len(),
        c@.len() % 2 == 0,
    ensures
        r == round_message(c@, z@),
{
    let len: usize = c.len();
    let half: usize = len / 2;
    let ghost f1 = |i: int| c@[i + half] * z@[i + half];
    let ghost finf = |i: int| (c@[i + half] + c@[i]) * (z@[i + half] + z@[i]);
    let mut e1 = F128::zero();
    let mut einf = F128::zero();
    let mut i: usize = 0;
    while i < half
        invariant
            i <= half,
            len == c@.len(),
            len == z@.len(),
            len == 2 * half,
            f1 == (|i: int| c@[i + half] * z@[i + half]),
            finf == (|i: int| (c@[i + half] + c@[i]) * (z@[i + half] + z@[i])),
            e1 == sum(i as nat, f1),
            einf == sum(i as nat, finf),
        decreases half - i,
    {
        assert(sum((i + 1) as nat, f1) == sum(i as nat, f1) + f1(i as int));
        assert(sum((i + 1) as nat, finf) == sum(i as nat, finf) + finf(i as int));
        e1 = e1 + c[i + half] * z[i + half];
        einf = einf + (c[i + half] + c[i]) * (z[i + half] + z[i]);
        i = i + 1;
    }
    proof {
        let h = c@.len() / 2;
        let m = round_message(c@, z@);
        crate::algebra::lemma_sum_ext(half as nat, f1, |i: int| c@[i + h] * z@[i + h]);
        crate::algebra::lemma_sum_ext(
            half as nat,
            finf,
            |i: int| (c@[i + h] + c@[i]) * (z@[i + h] + z@[i]),
        );
    }
    (e1, einf)
}

/// Bind the top remaining variable of `v` at challenge `r`: `v[i] ← v[i] +
/// r·(v[i+half] + v[i])` for `i ∈ [0, half)`, then truncate to `half`. In-place.
pub(crate) fn sumcheck_bind_top_in_place_par(v: &mut Vec<F128>, r: F128)
    requires
        old(v)@.len() % 2 == 0,
    ensures
        final(v)@ == bound_top(old(v)@, r),
{
    let ghost start = v@;
    let len: usize = v.len();
    let half: usize = len / 2;
    let mut i: usize = 0;
    while i < half
        invariant
            i <= half,
            len == 2 * half,
            v@.len() == len,
            start.len() == len,
            forall|q: int| 0 <= q < i ==> #[trigger] v@[q] == start[q] + r * (start[q + half] + start[q]),
            forall|q: int| i <= q < len ==> #[trigger] v@[q] == start[q],
        decreases half - i,
    {
        v[i] = v[i] + r * (v[i + half] + v[i]);
        i = i + 1;
    }
    v.truncate(half);
    assert(v@ =~= bound_top(start, r));
}

/// **Fused fold + next-round evaluation.** Binds the top variable of *both*
/// `comb` and `z` at `r` (in place, each length halves) AND returns the next
/// product-sumcheck round's message `(q(1), q(∞))` over the just-bound tables —
/// all in a single pass over the data.
///
/// Why it fuses: round `t`'s message must be sent before `r_t` is sampled, so
/// eval(t) and bind(t) can't share a pass. But binding at `r_t` produces
/// exactly the table eval(t+1) reads, and `r_t` is known by then. The bound
/// values `new[i]` and `new[i+half2]` are precisely the `lo`/`hi` halves the
/// next round's eval pairs up, so we form each product the moment both bound
/// values exist.
///
/// Operates on quarters of each array (`half2 = len/4`). For `i ∈ 0..half2`:
/// ```text
///   lo' = q0[i] + r·(q2[i] + q0[i])   (= new[i],        next round's lo)
///   hi' = q1[i] + r·(q3[i] + q1[i])   (= new[i+half2],  next round's hi)
///   q0[i] ← lo';  q1[i] ← hi'
///   e1   += hi'·zhi';   einf += (hi'+lo')·(zhi'+zlo')
/// ```
/// The returned message is that of [`sumcheck_round_eval_par`] on the bound
/// tables.
pub(crate) fn sumcheck_bind_both_and_eval_next(
    comb: &mut Vec<F128>,
    z: &mut Vec<F128>,
    r: F128,
) -> (m: (F128, F128))
    requires
        old(comb)@.len() == old(z)@.len(),
        old(comb)@.len() % 4 == 0,
    ensures
        final(comb)@ == bound_top(old(comb)@, r),
        final(z)@ == bound_top(old(z)@, r),
        m == round_message(final(comb)@, final(z)@),
{
    let ghost (c0, z0) = (comb@, z@);
    let ghost (cb, zb) = (bound_top(c0, r), bound_top(z0, r));
    let len: usize = comb.len();
    let half: usize = len / 2;
    let half2: usize = half / 2;
    let ghost f1 = |i: int| cb[i + half2] * zb[i + half2];
    let ghost finf = |i: int| (cb[i + half2] + cb[i]) * (zb[i + half2] + zb[i]);
    let mut e1 = F128::zero();
    let mut einf = F128::zero();
    let mut i: usize = 0;
    while i < half2
        invariant
            i <= half2,
            len == 4 * half2,
            half == 2 * half2,
            comb@.len() == len,
            z@.len() == len,
            c0.len() == len,
            z0.len() == len,
            cb == bound_top(c0, r),
            zb == bound_top(z0, r),
            forall|q: int| 0 <= q < i ==> #[trigger] comb@[q] == cb[q],
            forall|q: int| 0 <= q < i ==> #[trigger] z@[q] == zb[q],
            forall|q: int| half2 <= q < half2 + i ==> #[trigger] comb@[q] == cb[q],
            forall|q: int| half2 <= q < half2 + i ==> #[trigger] z@[q] == zb[q],
            forall|q: int| i <= q < half2 ==> #[trigger] comb@[q] == c0[q],
            forall|q: int| i <= q < half2 ==> #[trigger] z@[q] == z0[q],
            forall|q: int| half2 + i <= q < len ==> #[trigger] comb@[q] == c0[q],
            forall|q: int| half2 + i <= q < len ==> #[trigger] z@[q] == z0[q],
            f1 == (|i: int| cb[i + half2] * zb[i + half2]),
            finf == (|i: int| (cb[i + half2] + cb[i]) * (zb[i + half2] + zb[i])),
            e1 == sum(i as nat, f1),
            einf == sum(i as nat, finf),
        decreases half2 - i,
    {
        assert(comb@[i as int] == c0[i as int] && comb@[i + half2] == c0[i + half2] && comb@[i + half]
            == c0[i + half] && comb@[i + half2 + half] == c0[i + half2 + half]);
        assert(z@[i as int] == z0[i as int] && z@[i + half2] == z0[i + half2] && z@[i + half]
            == z0[i + half] && z@[i + half2 + half] == z0[i + half2 + half]);
        let lo = comb[i] + r * (comb[i + half] + comb[i]);
        let hi = comb[i + half2] + r * (comb[i + half2 + half] + comb[i + half2]);
        let zlo = z[i] + r * (z[i + half] + z[i]);
        let zhi = z[i + half2] + r * (z[i + half2 + half] + z[i + half2]);
        proof {
            assert(lo == cb[i as int] && hi == cb[i + half2]);
            assert(zlo == zb[i as int] && zhi == zb[i + half2]);
            assert(sum((i + 1) as nat, f1) == sum(i as nat, f1) + f1(i as int));
            assert(sum((i + 1) as nat, finf) == sum(i as nat, finf) + finf(i as int));
        }
        comb[i] = lo;
        comb[i + half2] = hi;
        z[i] = zlo;
        z[i + half2] = zhi;
        e1 = e1 + hi * zhi;
        einf = einf + (hi + lo) * (zhi + zlo);
        i = i + 1;
    }
    comb.truncate(half);
    z.truncate(half);
    proof {
        assert(comb@ =~= cb);
        assert(z@ =~= zb);
        let h = cb.len() / 2;
        crate::algebra::lemma_sum_ext(half2 as nat, f1, |i: int| cb[i + h] * zb[i + h]);
        crate::algebra::lemma_sum_ext(
            half2 as nat,
            finf,
            |i: int| (cb[i + h] + cb[i]) * (zb[i + h] + zb[i]),
        );
    }
    (e1, einf)
}

} // verus!
