//! Completeness of lincheck: the verifier accepts an honest proof and derives
//! the claim that the prover holds, which is a true one.
use vstd::arithmetic::power2::{lemma_pow2_adds, lemma_pow2_pos, lemma_pow2_unfold, pow2};
use vstd::prelude::*;
use crate::algebra::{
    lemma_sum_add, lemma_sum_ext, lemma_sum_scale, lemma_sum_split, lemma_sum_swap, lemma_sum_zero,
    sum,
};
use crate::challenger::Challenger;
use crate::field::gf2_128::{
    lemma_add_zero, lemma_mul_associates, lemma_mul_commutes, lemma_mul_distributes,
    lemma_mul_units,
};
use crate::field::F128;
use crate::lincheck::circuit::LincheckCircuit;
use crate::lincheck::fold::{
    fold_term, lemma_stripes, outer_fold, quirky_table, quirky_weight, row_fold, stripe_bit,
    stripes_fit,
};
use crate::lincheck::protocol::{
    comb_vector, initial_target, opening, prover_inputs_fit, prover_rounds, prover_transcript,
    verdict, verifier_rounds, z_vector, QuirkyPoint, VerifyError,
};
use crate::r1cs::laws::{bit_value, lemma_bit_value_xor};
use crate::r1cs::{is_circuit_of, parity, BlockR1cs};
use crate::zerocheck::multilinear::{
    bound_all, bound_top, dot, eq_table, eq_weight, lagrange_table, lemma_eq_weight_push,
    lemma_eq_weights_sum_to_one, lemma_product_round, lemma_weighted_pair, round_message,
};

verus! {

// ---------------------------------------------------------------------------
// Values of the witness and of its products at a quirky point
// ---------------------------------------------------------------------------

/// `Σ_{r, o} quirky_eq(r) · eq(x_outer, o) · bits(r, o)`: the value at a quirky
/// point of a Boolean function of the inner and the outer index.
pub open spec fn quirky_value(
    bits: spec_fn(int, int) -> bool,
    k_log: nat,
    k_skip: nat,
    z_skip: F128,
    x_inner_rest: Seq<F128>,
    x_outer: Seq<F128>,
) -> F128 {
    sum(
        pow2(k_log),
        |r: int|
            quirky_weight(z_skip, x_inner_rest, k_skip, r) * sum(
                pow2(x_outer.len()),
                |o: int| eq_weight(x_outer, o as nat) * bit_value(bits(r, o)),
            ),
    )
}

/// The bits of the witness.
pub open spec fn witness_bits(z: Seq<u8>, k_log: nat) -> spec_fn(int, int) -> bool {
    |i: int, o: int| stripe_bit(z, pow2(k_log) as int, i, o)
}

/// The bits of the product of the blocks with a base matrix.
pub open spec fn product_bits(
    entry: spec_fn(int, int) -> bool,
    z: Seq<u8>,
    k_log: nat,
) -> spec_fn(int, int) -> bool {
    |r: int, o: int|
        parity(pow2(k_log), |c: int| entry(r, c) && stripe_bit(z, pow2(k_log) as int, c, o))
}

pub open spec fn a_entries<C: LincheckCircuit>(circuit: &C) -> spec_fn(int, int) -> bool {
    |r: int, c: int| circuit.a_entry(r, c)
}

pub open spec fn b_entries<C: LincheckCircuit>(circuit: &C) -> spec_fn(int, int) -> bool {
    |r: int, c: int| circuit.b_entry(r, c)
}

/// The pinned wire is one in every block.
pub open spec fn pin_is_one<C: LincheckCircuit>(circuit: &C, z: Seq<u8>, m: nat, k_log: nat) -> bool {
    circuit.pin() matches Some(col) ==> forall|o: int|
        0 <= o < pow2((m - k_log) as nat) ==> #[trigger] stripe_bit(
            z,
            pow2(k_log) as int,
            col as int,
            o,
        )
}

// ---------------------------------------------------------------------------
// Sums
// ---------------------------------------------------------------------------

/// `Σ_r w(r) · Σ_c a(r, c)·v(c) == Σ_c (Σ_r w(r)·a(r, c)) · v(c)`.
pub proof fn lemma_bilinear(
    m: nat,
    n: nat,
    w: spec_fn(int) -> F128,
    a: spec_fn(int, int) -> F128,
    v: spec_fn(int) -> F128,
)
    ensures
        sum(m, |r: int| w(r) * sum(n, |c: int| a(r, c) * v(c))) == sum(
            n,
            |c: int| sum(m, |r: int| w(r) * a(r, c)) * v(c),
        ),
{
    let term = |r: int, c: int| (w(r) * a(r, c)) * v(c);
    let lhs = |r: int| w(r) * sum(n, |c: int| a(r, c) * v(c));
    let rows = |r: int| sum(n, |c: int| term(r, c));
    assert forall|r: int| 0 <= r < m implies #[trigger] lhs(r) == rows(r) by {
        let inner = |c: int| a(r, c) * v(c);
        lemma_sum_scale(n, w(r), inner);
        let scaled = |c: int| w(r) * inner(c);
        let t = |c: int| term(r, c);
        assert forall|c: int| 0 <= c < n implies #[trigger] scaled(c) == t(c) by {
            lemma_mul_associates(w(r), a(r, c), v(c));
        }
        lemma_sum_ext(n, scaled, t);
    }
    lemma_sum_ext(m, lhs, rows);
    lemma_sum_swap(m, n, term);
    let cols = |c: int| sum(m, |r: int| term(r, c));
    let rhs = |c: int| sum(m, |r: int| w(r) * a(r, c)) * v(c);
    assert forall|c: int| 0 <= c < n implies #[trigger] cols(c) == rhs(c) by {
        let g = |r: int| w(r) * a(r, c);
        lemma_sum_scale(m, v(c), g);
        lemma_sum_ext(m, |r: int| g(r) * v(c), |r: int| term(r, c));
    }
    lemma_sum_ext(n, cols, rhs);
}

/// The value of a parity is the sum of the values.
pub proof fn lemma_parity_is_sum(n: nat, f: spec_fn(int) -> bool)
    ensures
        bit_value(parity(n, f)) == sum(n, |i: int| bit_value(f(i))),
    decreases n,
{
    let g = |i: int| bit_value(f(i));
    if n > 0 {
        lemma_parity_is_sum((n - 1) as nat, f);
        lemma_bit_value_xor(parity((n - 1) as nat, f), f(n - 1));
        assert(g(n - 1) == bit_value(f(n - 1)));
    }
}

proof fn lemma_bit_and(a: bool, b: bool)
    ensures
        bit_value(a && b) == bit_value(a) * bit_value(b),
{
    lemma_mul_units(bit_value(b));
    lemma_mul_units(bit_value(a));
}

// ---------------------------------------------------------------------------
// The claim before the first round
// ---------------------------------------------------------------------------

/// The value of a product is the fold of the matrix against the folded witness.
pub proof fn lemma_product_value(
    entry: spec_fn(int, int) -> bool,
    z: Seq<u8>,
    m: nat,
    k_log: nat,
    k_skip: nat,
    z_skip: F128,
    rest: Seq<F128>,
    x_outer: Seq<F128>,
)
    requires
        stripes_fit(z, m as int, k_log as int),
        x_outer.len() == m - k_log,
        pow2(k_skip) * pow2(rest.len()) == pow2(k_log),
    ensures
        quirky_value(product_bits(entry, z, k_log), k_log, k_skip, z_skip, rest, x_outer) == sum(
            pow2(k_log),
            |c: int|
                sum(
                    pow2(k_log),
                    |r: int| quirky_table(z_skip, rest, k_skip)[r] * bit_value(entry(r, c)),
                ) * outer_fold(z, pow2(k_log) as int, eq_table(x_outer), pow2(k_log) as int)[c],
        ),
{
    let k = pow2(k_log);
    let n = pow2(x_outer.len());
    let table = quirky_table(z_skip, rest, k_skip);
    let zv = outer_fold(z, k as int, eq_table(x_outer), k as int);
    let e = |o: int| eq_weight(x_outer, o as nat);
    let bits = product_bits(entry, z, k_log);
    let w = |r: int| table[r];
    let a = |r: int, c: int| bit_value(entry(r, c));
    let v = |c: int| zv[c];
    let lhs = |r: int|
        quirky_weight(z_skip, rest, k_skip, r) * sum(
            n,
            |o: int| eq_weight(x_outer, o as nat) * bit_value(bits(r, o)),
        );
    let mid = |r: int| w(r) * sum(k, |c: int| a(r, c) * v(c));
    assert forall|r: int| 0 <= r < k implies #[trigger] lhs(r) == mid(r) by {
        let zb = |o: int, c: int| bit_value(stripe_bit(z, k as int, c, o));
        let ar = |c: int| a(r, c);
        lemma_bilinear(n, k, e, zb, ar);
        let f1 = |o: int| eq_weight(x_outer, o as nat) * bit_value(bits(r, o));
        let f2 = |o: int| e(o) * sum(k, |c: int| zb(o, c) * ar(c));
        assert forall|o: int| 0 <= o < n implies #[trigger] f1(o) == f2(o) by {
            let p = |c: int| entry(r, c) && stripe_bit(z, k as int, c, o);
            lemma_parity_is_sum(k, p);
            let q = |c: int| bit_value(p(c));
            let s = |c: int| zb(o, c) * ar(c);
            assert forall|c: int| 0 <= c < k implies #[trigger] q(c) == s(c) by {
                lemma_bit_and(entry(r, c), stripe_bit(z, k as int, c, o));
                lemma_mul_commutes(zb(o, c), ar(c));
            }
            lemma_sum_ext(k, q, s);
            assert(bits(r, o) == parity(k, p));
        }
        lemma_sum_ext(n, f1, f2);
        let g1 = |c: int| sum(n, |o: int| e(o) * zb(o, c)) * ar(c);
        let g2 = |c: int| a(r, c) * v(c);
        assert forall|c: int| 0 <= c < k implies #[trigger] g1(c) == g2(c) by {
            lemma_sum_ext(
                n,
                |o: int| e(o) * zb(o, c),
                fold_term(z, k as int, eq_table(x_outer), c),
            );
            assert(zv[c] == row_fold(z, k as int, eq_table(x_outer), n, c));
            lemma_mul_commutes(zv[c], ar(c));
        }
        lemma_sum_ext(k, g1, g2);
    }
    lemma_sum_ext(k, lhs, mid);
    lemma_bilinear(k, k, w, a, v);
    let r1 = |c: int| sum(k, |r: int| w(r) * a(r, c)) * v(c);
    let r2 = |c: int| sum(k, |r: int| table[r] * bit_value(entry(r, c))) * zv[c];
    assert forall|c: int| 0 <= c < k implies #[trigger] r1(c) == r2(c) by {
        lemma_sum_ext(k, |r: int| w(r) * a(r, c), |r: int| table[r] * bit_value(entry(r, c)));
    }
    lemma_sum_ext(k, r1, r2);
}

/// `Σ_c v[c]·z[c]` when one entry of `v` grows.
proof fn lemma_dot_update(v: Seq<F128>, z: Seq<F128>, at: int, d: F128)
    requires
        v.len() == z.len(),
        0 <= at < v.len(),
    ensures
        dot(v.update(at, v[at] + d), z) == dot(v, z) + d * z[at],
{
    let n = v.len();
    let u = v.update(at, v[at] + d);
    let f = |i: int| v[i] * z[i];
    let fz = |i: int| d * z[i];
    let one = |i: int| bit_value(at == i) * fz(i);
    let g = |i: int| u[i] * z[i];
    let both = |i: int| f(i) + one(i);
    assert forall|i: int| 0 <= i < n implies #[trigger] g(i) == both(i) by {
        lemma_mul_units(fz(i));
        lemma_add_zero(f(i));
        lemma_mul_distributes(z[i], v[i], d);
    }
    lemma_sum_ext(n, g, both);
    lemma_sum_add(n, f, one);
    crate::r1cs::laws::lemma_one_term(n, at, fz);
}

/// The sum that the sumcheck of an honest run proves: `α·v_a + v_b`, plus `β` times the value
/// of the pinned column.
pub(crate) proof fn lemma_initial_sum<Ch: Challenger, C: LincheckCircuit>(
    s: Ch::State,
    circuit: &C,
    z: Seq<u8>,
    m: usize,
    k_log: usize,
    k_skip: usize,
    x_ab: QuirkyPoint,
)
    requires
        prover_inputs_fit(z, m, k_log, k_skip, circuit, x_ab),
    ensures
        ({
            let table = quirky_table(x_ab.z_skip, x_ab.x_inner_rest@, k_skip as nat);
            let o = opening::<Ch, C>(s, circuit, table);
            let v_a = quirky_value(
                product_bits(a_entries(circuit), z, k_log as nat),
                k_log as nat,
                k_skip as nat,
                x_ab.z_skip,
                x_ab.x_inner_rest@,
                x_ab.x_outer@,
            );
            let v_b = quirky_value(
                product_bits(b_entries(circuit), z, k_log as nat),
                k_log as nat,
                k_skip as nat,
                x_ab.z_skip,
                x_ab.x_inner_rest@,
                x_ab.x_outer@,
            );
            let zv = outer_fold(
                z,
                pow2(k_log as nat) as int,
                eq_table(x_ab.x_outer@),
                pow2(k_log as nat) as int,
            );
            &&& o.comb.len() == pow2(k_log as nat)
            &&& dot(o.comb, zv) == (match circuit.pin() {
                None => o.alpha * v_a + v_b,
                Some(col) => (o.alpha * v_a + v_b) + o.beta * zv[col as int],
            })
        }),
{
    let k = pow2(k_log as nat);
    lemma_pow2_adds(k_skip as nat, (k_log - k_skip) as nat);
    let table = quirky_table(x_ab.z_skip, x_ab.x_inner_rest@, k_skip as nat);
    let o = opening::<Ch, C>(s, circuit, table);
    let xo = x_ab.x_outer@;
    let zv = outer_fold(z, k as int, eq_table(xo), k as int);
    lemma_product_value(
        a_entries(circuit),
        z,
        m as nat,
        k_log as nat,
        k_skip as nat,
        x_ab.z_skip,
        x_ab.x_inner_rest@,
        xo,
    );
    lemma_product_value(
        b_entries(circuit),
        z,
        m as nat,
        k_log as nat,
        k_skip as nat,
        x_ab.z_skip,
        x_ab.x_inner_rest@,
        xo,
    );
    let fa = |c: int| sum(k, |r: int| table[r] * bit_value(circuit.a_entry(r, c))) * zv[c];
    let fb = |c: int| sum(k, |r: int| table[r] * bit_value(circuit.b_entry(r, c))) * zv[c];
    let ga = |c: int| sum(k, |r: int| table[r] * bit_value(a_entries(circuit)(r, c))) * zv[c];
    let gb = |c: int| sum(k, |r: int| table[r] * bit_value(b_entries(circuit)(r, c))) * zv[c];
    assert forall|c: int| 0 <= c < k implies #[trigger] fa(c) == ga(c) by {
        lemma_sum_ext(
            k,
            |r: int| table[r] * bit_value(circuit.a_entry(r, c)),
            |r: int| table[r] * bit_value(a_entries(circuit)(r, c)),
        );
    }
    assert forall|c: int| 0 <= c < k implies #[trigger] fb(c) == gb(c) by {
        lemma_sum_ext(
            k,
            |r: int| table[r] * bit_value(circuit.b_entry(r, c)),
            |r: int| table[r] * bit_value(b_entries(circuit)(r, c)),
        );
    }
    lemma_sum_ext(k, fa, ga);
    lemma_sum_ext(k, fb, gb);
    let (v_a, v_b) = (sum(k, fa), sum(k, fb));
    let comb = comb_vector(circuit, o.alpha, table);
    let scaled = |c: int| o.alpha * fa(c);
    lemma_sum_scale(k, o.alpha, fa);
    lemma_sum_add(k, scaled, fb);
    let both = |c: int| scaled(c) + fb(c);
    let f = |c: int| comb[c] * zv[c];
    assert forall|c: int| 0 <= c < k implies #[trigger] f(c) == both(c) by {
        let (x, y) = (
            sum(k, |r: int| table[r] * bit_value(circuit.a_entry(r, c))),
            sum(k, |r: int| table[r] * bit_value(circuit.b_entry(r, c))),
        );
        lemma_mul_distributes(zv[c], o.alpha * x, y);
        lemma_mul_associates(o.alpha, x, zv[c]);
    }
    lemma_sum_ext(k, f, both);
    assert(dot(comb, zv) == o.alpha * v_a + v_b);
    if let Some(col) = circuit.pin() {
        lemma_dot_update(comb, zv, col as int, o.beta);
    }
}

/// The honest claim: before the first round the target is the sum that the
/// sumcheck proves.
proof fn lemma_initial_claim<Ch: Challenger, C: LincheckCircuit>(
    s: Ch::State,
    circuit: &C,
    z: Seq<u8>,
    m: usize,
    k_log: usize,
    k_skip: usize,
    x_ab: QuirkyPoint,
)
    requires
        prover_inputs_fit(z, m, k_log, k_skip, circuit, x_ab),
        pin_is_one(circuit, z, m as nat, k_log as nat),
    ensures
        ({
            let table = quirky_table(x_ab.z_skip, x_ab.x_inner_rest@, k_skip as nat);
            let o = opening::<Ch, C>(s, circuit, table);
            let v_a = quirky_value(
                product_bits(a_entries(circuit), z, k_log as nat),
                k_log as nat,
                k_skip as nat,
                x_ab.z_skip,
                x_ab.x_inner_rest@,
                x_ab.x_outer@,
            );
            let v_b = quirky_value(
                product_bits(b_entries(circuit), z, k_log as nat),
                k_log as nat,
                k_skip as nat,
                x_ab.z_skip,
                x_ab.x_inner_rest@,
                x_ab.x_outer@,
            );
            let zv = outer_fold(
                z,
                pow2(k_log as nat) as int,
                eq_table(x_ab.x_outer@),
                pow2(k_log as nat) as int,
            );
            &&& o.comb.len() == pow2(k_log as nat)
            &&& dot(o.comb, zv) == initial_target(circuit, o.alpha, o.beta, v_a, v_b)
        }),
{
    let k = pow2(k_log as nat);
    let table = quirky_table(x_ab.z_skip, x_ab.x_inner_rest@, k_skip as nat);
    let o = opening::<Ch, C>(s, circuit, table);
    let xo = x_ab.x_outer@;
    lemma_initial_sum::<Ch, C>(s, circuit, z, m, k_log, k_skip, x_ab);
    if let Some(col) = circuit.pin() {
        let ft = fold_term(z, k as int, eq_table(xo), col as int);
        let e = |o: int| eq_weight(xo, o as nat);
        assert forall|q: int| 0 <= q < pow2(xo.len()) implies #[trigger] ft(q) == e(q) by {
            assert(stripe_bit(z, k as int, col as int, q));
            lemma_mul_units(e(q));
        }
        lemma_sum_ext(pow2(xo.len()), ft, e);
        lemma_eq_weights_sum_to_one(xo);
        lemma_mul_units(o.beta);
    }
}

// ---------------------------------------------------------------------------
// The rounds
// ---------------------------------------------------------------------------

/// The shape of the prover's tables, and what the tables are.
pub proof fn lemma_prover_shape<Ch: Challenger>(
    s: Ch::State,
    comb: Seq<F128>,
    z: Seq<F128>,
    k_log: nat,
    t: nat,
)
    requires
        t <= k_log,
        comb.len() == pow2(k_log),
        z.len() == pow2(k_log),
    ensures
        ({
            let p = prover_rounds::<Ch>(s, comb, z, t);
            &&& p.comb.len() == pow2((k_log - t) as nat)
            &&& p.z.len() == pow2((k_log - t) as nat)
            &&& p.messages.len() == t
            &&& p.challenges.len() == t
            &&& p.z == bound_all(z, p.challenges)
            &&& p.comb == bound_all(comb, p.challenges)
        }),
    decreases t,
{
    if t > 0 {
        lemma_prover_shape::<Ch>(s, comb, z, k_log, (t - 1) as nat);
        lemma_pow2_unfold((k_log - t + 1) as nat);
        let prev = prover_rounds::<Ch>(s, comb, z, (t - 1) as nat);
        let p = prover_rounds::<Ch>(s, comb, z, t);
        assert(p.challenges.drop_last() =~= prev.challenges);
    }
}

/// Message number `i` is that of the tables after `i` rounds.
proof fn lemma_prover_messages<Ch: Challenger>(
    s: Ch::State,
    comb: Seq<F128>,
    z: Seq<F128>,
    t: nat,
    i: int,
)
    requires
        0 <= i < t,
    ensures
        prover_rounds::<Ch>(s, comb, z, t).messages.len() == t,
        ({
            let p = prover_rounds::<Ch>(s, comb, z, i as nat);
            prover_rounds::<Ch>(s, comb, z, t).messages[i] == round_message(p.comb, p.z)
        }),
    decreases t,
{
    let prev = prover_rounds::<Ch>(s, comb, z, (t - 1) as nat);
    if t - 1 == i {
        if t > 1 {
            lemma_prover_messages::<Ch>(s, comb, z, (t - 1) as nat, 0);
        } else {
            assert(prev.messages =~= Seq::empty());
        }
        assert(prev.messages.len() == t - 1);
    } else {
        lemma_prover_messages::<Ch>(s, comb, z, (t - 1) as nat, i);
    }
}

/// The verifier stays in lockstep with the prover, and its running claim is
/// the sum over the bound tables.
pub(crate) proof fn lemma_lockstep<Ch: Challenger>(
    s: Ch::State,
    comb: Seq<F128>,
    z: Seq<F128>,
    k_log: nat,
    n: nat,
    t: nat,
)
    requires
        t <= n <= k_log,
        comb.len() == pow2(k_log),
        z.len() == pow2(k_log),
    ensures
        ({
            let p = prover_rounds::<Ch>(s, comb, z, t);
            let messages = prover_rounds::<Ch>(s, comb, z, n).messages;
            let v = verifier_rounds::<Ch>(s, comb, dot(comb, z), messages, t);
            &&& v.state == p.state
            &&& v.challenges == p.challenges
            &&& v.comb == p.comb
            &&& v.running == dot(p.comb, p.z)
        }),
    decreases t,
{
    if t > 0 {
        let i = (t - 1) as nat;
        lemma_lockstep::<Ch>(s, comb, z, k_log, n, i);
        lemma_prover_messages::<Ch>(s, comb, z, n, i as int);
        lemma_prover_shape::<Ch>(s, comb, z, k_log, i);
        let prev = prover_rounds::<Ch>(s, comb, z, i);
        let p = prover_rounds::<Ch>(s, comb, z, t);
        lemma_pow2_unfold((k_log - i) as nat);
        let (e1, einf) = round_message(prev.comb, prev.z);
        let s1 = Ch::after_f128(Ch::after_f128(prev.state, e1), einf);
        lemma_product_round(prev.comb, prev.z, Ch::challenge(s1));
    }
}

// ---------------------------------------------------------------------------
// The output claim
// ---------------------------------------------------------------------------

/// `Σ_i lambda[i mod L] · eq(point, i / L) · v[i]`.
pub open spec fn skip_value(lambda: Seq<F128>, point: Seq<F128>, v: Seq<F128>) -> F128 {
    sum(
        lambda.len() * pow2(point.len()),
        |i: int|
            v[i] * (lambda[i % (lambda.len() as int)] * eq_weight(
                point,
                (i / (lambda.len() as int)) as nat,
            )),
    )
}

proof fn lemma_skip_bind(lambda: Seq<F128>, point: Seq<F128>, v: Seq<F128>, r: F128)
    requires
        lambda.len() > 0,
        v.len() == lambda.len() * pow2(point.len() + 1),
    ensures
        skip_value(lambda, point.push(r), v) == skip_value(lambda, point, bound_top(v, r)),
        bound_top(v, r).len() == lambda.len() * pow2(point.len()),
{
    let n = point.len();
    let l = lambda.len() as int;
    let h = (l * pow2(n)) as nat;
    lemma_pow2_unfold(n + 1);
    lemma_pow2_pos(n);
    assert(l * (2 * pow2(n)) == 2 * (l * pow2(n))) by (nonlinear_arith);
    assert(0 <= l * pow2(n)) by (nonlinear_arith)
        requires
            l > 0,
    ;
    let next = point.push(r);
    let f = |i: int| v[i] * (lambda[i % l] * eq_weight(next, (i / l) as nat));
    let b = bound_top(v, r);
    let g = |i: int| b[i] * (lambda[i % l] * eq_weight(point, (i / l) as nat));
    lemma_sum_split(h, h, f);
    let f2 = |i: int| f(h + i);
    lemma_sum_add(h, f, f2);
    let both = |i: int| f(i) + f2(i);
    assert forall|i: int| 0 <= i < h implies #[trigger] both(i) == g(i) by {
        let q = i / l;
        vstd::arithmetic::div_mod::lemma_fundamental_div_mod(i, l);
        vstd::arithmetic::div_mod::lemma_mod_bound(i, l);
        assert(0 <= q < pow2(n)) by (nonlinear_arith)
            requires
                i == l * q + (i % l),
                0 <= i < l * pow2(n),
                0 <= i % l < l,
        ;
        assert(h + i == (q + pow2(n)) * l + (i % l)) by (nonlinear_arith)
            requires
                i == l * q + (i % l),
                h == l * pow2(n),
        ;
        vstd::arithmetic::div_mod::lemma_fundamental_div_mod_converse(
            h + i,
            l,
            q + pow2(n),
            i % l,
        );
        lemma_eq_weight_push(point, r, q as nat);
        let lam = lambda[i % l];
        let e = eq_weight(point, q as nat);
        lemma_mul_associates(lam, e, F128::one() + r);
        lemma_mul_associates(lam, e, r);
        lemma_weighted_pair(v[i], v[i + h], r, lam * e);
        assert(b[i] == v[i] + r * (v[i + h] + v[i]));
    }
    lemma_sum_ext(h, both, g);
}

/// Binding the top variables evaluates at the challenges, whatever weighs the
/// low variables.
pub proof fn lemma_skip_bind_all(
    lambda: Seq<F128>,
    point: Seq<F128>,
    v: Seq<F128>,
    rs: Seq<F128>,
)
    requires
        lambda.len() > 0,
        v.len() == lambda.len() * pow2(point.len() + rs.len()),
    ensures
        bound_all(v, rs).len() == lambda.len() * pow2(point.len()),
        skip_value(lambda, point + rs.reverse(), v) == skip_value(lambda, point, bound_all(v, rs)),
    decreases rs.len(),
{
    if rs.len() == 0 {
        assert(point + rs.reverse() =~= point);
    } else {
        let prev = rs.drop_last();
        let r = rs.last();
        lemma_skip_bind_all(lambda, point.push(r), v, prev);
        assert(point.push(r) + prev.reverse() =~= point + rs.reverse());
        lemma_skip_bind(lambda, point, bound_all(v, prev), r);
    }
}

/// The prover's claim is true: its value is that of the witness at the point
/// `(r_inner_skip, r_inner_rest, x_outer)`.
pub proof fn lemma_claim_is_true<Ch: Challenger, C: LincheckCircuit>(
    s: Ch::State,
    circuit: &C,
    z: Seq<u8>,
    m: usize,
    k_log: usize,
    k_skip: usize,
    x_ab: QuirkyPoint,
)
    requires
        prover_inputs_fit(z, m, k_log, k_skip, circuit, x_ab),
        pow2(k_log as nat) <= usize::MAX,
    ensures
        ({
            let z_vec = z_vector(z, k_log, pow2(k_log as nat) as usize, x_ab);
            let t = prover_transcript::<Ch, C>(s, circuit, x_ab, k_skip as nat, z_vec);
            t.claim.w == quirky_value(
                witness_bits(z, k_log as nat),
                k_log as nat,
                k_skip as nat,
                t.claim.r_inner_skip,
                t.claim.r_inner_rest,
                x_ab.x_outer@,
            )
        }),
{
    let k = pow2(k_log as nat);
    let rest_len = (k_log - k_skip) as nat;
    lemma_pow2_adds(k_skip as nat, rest_len);
    lemma_pow2_pos(k_skip as nat);
    let xo = x_ab.x_outer@;
    let z_vec = z_vector(z, k_log, k as usize, x_ab);
    let table = quirky_table(x_ab.z_skip, x_ab.x_inner_rest@, k_skip as nat);
    let o = opening::<Ch, C>(s, circuit, table);
    lemma_prover_shape::<Ch>(o.state, o.comb, z_vec, k_log as nat, rest_len);
    let p = prover_rounds::<Ch>(o.state, o.comb, z_vec, rest_len);
    let t = prover_transcript::<Ch, C>(s, circuit, x_ab, k_skip as nat, z_vec);
    let lambda = lagrange_table(k_skip as nat, t.claim.r_inner_skip);
    let l = lambda.len() as int;
    let none = Seq::<F128>::empty();
    vstd::arithmetic::power2::lemma2_to64();
    assert(lambda.len() * pow2(none.len() + p.challenges.len()) == k);
    lemma_skip_bind_all(lambda, none, z_vec, p.challenges);
    assert(none + p.challenges.reverse() =~= t.claim.r_inner_rest);
    // the value of the collapsed vector is the claim's
    let f = |i: int|
        p.z[i] * (lambda[i % l] * eq_weight(none, (i / l) as nat));
    let g = |i: int| lambda[i] * p.z[i];
    assert(lambda.len() * pow2(0) == lambda.len()) by (nonlinear_arith)
        requires
            pow2(0) == 1,
    ;
    assert forall|i: int| 0 <= i < l implies #[trigger] f(i) == g(i) by {
        vstd::arithmetic::div_mod::lemma_small_mod(i as nat, l as nat);
        lemma_mul_units(lambda[i]);
        lemma_mul_commutes(p.z[i], lambda[i]);
    }
    lemma_sum_ext(lambda.len(), f, g);
    // the value of the whole vector is that of the witness
    let rest = t.claim.r_inner_rest;
    let f1 = |i: int| z_vec[i] * (lambda[i % l] * eq_weight(rest, (i / l) as nat));
    let bits = witness_bits(z, k_log as nat);
    let n = pow2(xo.len());
    let g1 = |r: int|
        quirky_weight(t.claim.r_inner_skip, rest, k_skip as nat, r) * sum(
            n,
            |o: int| eq_weight(xo, o as nat) * bit_value(bits(r, o)),
        );
    assert forall|i: int| 0 <= i < k implies #[trigger] f1(i) == g1(i) by {
        lemma_sum_ext(
            n,
            fold_term(z, k as int, eq_table(xo), i),
            |o: int| eq_weight(xo, o as nat) * bit_value(bits(i, o)),
        );
        vstd::arithmetic::div_mod::lemma_mod_bound(i, l);
        lemma_mul_commutes(z_vec[i], lambda[i % l] * eq_weight(rest, (i / l) as nat));
    }
    lemma_sum_ext(k, f1, g1);
}

/// Completeness: for an honest witness whose products have the values `v_a`
/// and `v_b` at the claim point, and with the pinned wire set to one, the
/// verifier accepts the prover's messages and derives the prover's claim,
/// and both leave the challenger in the same state.
pub proof fn lemma_honest_proof_is_accepted<Ch: Challenger, C: LincheckCircuit>(
    s: Ch::State,
    circuit: &C,
    z: Seq<u8>,
    m: usize,
    k_log: usize,
    k_skip: usize,
    x_ab: QuirkyPoint,
)
    requires
        prover_inputs_fit(z, m, k_log, k_skip, circuit, x_ab),
        pin_is_one(circuit, z, m as nat, k_log as nat),
    ensures
        ({
            let z_vec = z_vector(z, k_log, pow2(k_log as nat) as usize, x_ab);
            let t = prover_transcript::<Ch, C>(s, circuit, x_ab, k_skip as nat, z_vec);
            let v_a = quirky_value(
                product_bits(a_entries(circuit), z, k_log as nat),
                k_log as nat,
                k_skip as nat,
                x_ab.z_skip,
                x_ab.x_inner_rest@,
                x_ab.x_outer@,
            );
            let v_b = quirky_value(
                product_bits(b_entries(circuit), z, k_log as nat),
                k_log as nat,
                k_skip as nat,
                x_ab.z_skip,
                x_ab.x_inner_rest@,
                x_ab.x_outer@,
            );
            let v = verdict::<Ch, C>(
                s,
                m,
                k_log,
                k_skip,
                circuit,
                x_ab,
                v_a,
                v_b,
                t.messages,
                t.z_partial,
            );
            &&& v.result == Ok::<crate::lincheck::protocol::ClaimView, VerifyError>(t.claim)
            &&& v.state == t.state
        }),
{
    let k = pow2(k_log as nat);
    lemma_stripes(m as nat, k_log as nat);
    let rest_len = (k_log - k_skip) as nat;
    let z_vec = z_vector(z, k_log, k as usize, x_ab);
    lemma_initial_claim::<Ch, C>(s, circuit, z, m, k_log, k_skip, x_ab);
    let table = quirky_table(x_ab.z_skip, x_ab.x_inner_rest@, k_skip as nat);
    let o = opening::<Ch, C>(s, circuit, table);
    lemma_lockstep::<Ch>(o.state, o.comb, z_vec, k_log as nat, rest_len, rest_len);
    lemma_prover_shape::<Ch>(o.state, o.comb, z_vec, k_log as nat, rest_len);
}

/// Rows past the useful ones may be skipped when they are zero: the folded
/// vector, and with it the whole run, is the same.
pub proof fn lemma_padding_is_immaterial(z: Seq<u8>, m: usize, k_log: usize, useful: usize, x_ab: QuirkyPoint)
    requires
        stripes_fit(z, m as int, k_log as int),
        x_ab.x_outer@.len() == m - k_log,
        useful <= pow2(k_log as nat) <= usize::MAX,
        forall|i: int, o: int|
            useful <= i < pow2(k_log as nat) && 0 <= o < pow2((m - k_log) as nat) ==> !(
            #[trigger] stripe_bit(z, pow2(k_log as nat) as int, i, o)),
    ensures
        z_vector(z, k_log, useful, x_ab) == z_vector(z, k_log, pow2(k_log as nat) as usize, x_ab),
{
    let k = pow2(k_log as nat) as int;
    let w = eq_table(x_ab.x_outer@);
    assert forall|i: int| useful <= i < k implies #[trigger] row_fold(z, k, w, w.len(), i)
        == F128::zero() by {
        let f = fold_term(z, k, w, i);
        assert forall|o: int| 0 <= o < w.len() implies #[trigger] f(o) == F128::zero() by {
            assert(!stripe_bit(z, k, i, o));
            lemma_mul_units(w[o]);
        }
        lemma_sum_zero(w.len(), f);
    }
    assert(z_vector(z, k_log, useful, x_ab) =~= z_vector(z, k_log, k as usize, x_ab));
}

// ---------------------------------------------------------------------------
// Circuits of one instance
// ---------------------------------------------------------------------------

/// All circuits of an instance are alike, be they sparse or transposed, built once or
/// anew: they have its side and its pin and fold to the same vector, whose entry `c` is
/// `α · Σ_r eq[r]·A_0[r][c] + Σ_r eq[r]·B_0[r][c]`.
pub proof fn lemma_circuits_fold_alike<C: LincheckCircuit, D: LincheckCircuit>(
    r: BlockR1cs,
    x: &C,
    y: &D,
    alpha: F128,
    eq: Seq<F128>,
)
    requires
        is_circuit_of(x, r),
        is_circuit_of(y, r),
    ensures
        x.side() == r.a_0.num_cols,
        x.side() == y.side(),
        x.pin() == r.const_pin,
        x.pin() == y.pin(),
        comb_vector(x, alpha, eq) == comb_vector(y, alpha, eq),
        forall|c: int|
            0 <= c < x.side() ==> #[trigger] comb_vector(x, alpha, eq)[c] == alpha * sum(
                x.side(),
                |i: int| eq[i] * bit_value(r.a_0.entry(i, c)),
            ) + sum(x.side(), |i: int| eq[i] * bit_value(r.b_0.entry(i, c))),
{
    let n = x.side();
    assert forall|c: int| 0 <= c < n implies {
        &&& #[trigger] comb_vector(x, alpha, eq)[c] == alpha * sum(
            n,
            |i: int| eq[i] * bit_value(r.a_0.entry(i, c)),
        ) + sum(n, |i: int| eq[i] * bit_value(r.b_0.entry(i, c)))
        &&& comb_vector(y, alpha, eq)[c] == comb_vector(x, alpha, eq)[c]
    } by {
        let (a, b) = (
            |i: int| eq[i] * bit_value(r.a_0.entry(i, c)),
            |i: int| eq[i] * bit_value(r.b_0.entry(i, c)),
        );
        lemma_sum_ext(n, |i: int| eq[i] * bit_value(x.a_entry(i, c)), a);
        lemma_sum_ext(n, |i: int| eq[i] * bit_value(x.b_entry(i, c)), b);
        lemma_sum_ext(n, |i: int| eq[i] * bit_value(y.a_entry(i, c)), a);
        lemma_sum_ext(n, |i: int| eq[i] * bit_value(y.b_entry(i, c)), b);
    }
    assert(comb_vector(x, alpha, eq) =~= comb_vector(y, alpha, eq));
}

} // verus!
