//! Laws of block-diagonal R1CS instances.
use vstd::arithmetic::power2::pow2;
use vstd::bytes::{lemma_auto_spec_u64_to_from_le_bytes, spec_u64_from_le_bytes};
use vstd::prelude::*;
use crate::algebra::{lemma_sum_add, lemma_sum_ext, lemma_sum_zero, sum};
use crate::challenger::fs::le64;
use crate::challenger::script::ascii;
use crate::field::gf2_128::{lemma_add_rules, lemma_add_zero, lemma_mul_distributes, lemma_mul_units};
use crate::field::F128;
use crate::r1cs::{
    columns_bytes, lemma_blocks, parity, row_bytes, rows_bytes, statement_label, BlockR1cs,
    SparseBinaryMatrix,
};

verus! {

/// The matrix is the identity: square, with one row for each column, which lists it.
pub open spec fn is_identity(m: SparseBinaryMatrix) -> bool {
    &&& m.num_rows == m.num_cols
    &&& m.rows@.len() == m.num_rows
    &&& forall|i: int| 0 <= i < m.rows@.len() ==> (#[trigger] m.rows@[i])@ == seq![i as usize]
}

/// The matrix is zero: it has all its rows, and none lists a column.
pub open spec fn is_zero(m: SparseBinaryMatrix) -> bool {
    &&& m.rows@.len() == m.num_rows
    &&& forall|i: int| 0 <= i < m.rows@.len() ==> (#[trigger] m.rows@[i])@.len() == 0
}

/// `I ⊗ I` is the identity.
pub proof fn lemma_identity_product(m: SparseBinaryMatrix, z: Seq<bool>, k: int, i: int)
    requires
        k > 0,
        m.square(k as nat),
        is_identity(m),
        0 <= i < z.len(),
    ensures
        m.block_bit(z, k, i) == z[i],
{
    vstd::arithmetic::div_mod::lemma_fundamental_div_mod(i, k);
    vstd::arithmetic::div_mod::lemma_mod_bound(i, k);
    assert(k * (i / k) == (i / k) * k) by (nonlinear_arith);
    let row = m.rows@[i % k]@;
    assert(row == seq![(i % k) as usize]);
    assert(row[0] == i % k);
    let f = |j: int| z[(i / k) * k + m.rows@[i % k]@[j]];
    assert(parity(1, f) == (parity(0, f) != f(0)));
}

/// A zero matrix maps everything to zero.
pub proof fn lemma_zero_product(m: SparseBinaryMatrix, z: Seq<bool>, k: int, i: int)
    requires
        k > 0,
        m.square(k as nat),
        is_zero(m),
        0 <= i < z.len(),
    ensures
        !m.block_bit(z, k, i),
{
    vstd::arithmetic::div_mod::lemma_mod_bound(i, k);
    assert(m.rows@[i % k]@.len() == 0);
}

/// With identity matrices every witness satisfies the constraint: a bit
/// times itself is itself.
pub proof fn lemma_identity_matrices_accept_any_witness(r: BlockR1cs, z: Seq<bool>)
    requires
        r.wf(),
        is_identity(r.a_0),
        is_identity(r.b_0),
        is_identity(r.c_0),
        z.len() == pow2(r.m as nat),
    ensures
        r.satisfied_by(z),
{
    let k = pow2(r.k_log as nat) as int;
    lemma_blocks(r.m as nat, r.k_log as nat);
    assert forall|i: int| 0 <= i < z.len() implies (r.a_0.block_bit(z, k, i) && r.b_0.block_bit(
        z,
        k,
        i,
    )) == #[trigger] r.c_0.block_bit(z, k, i) by {
        lemma_identity_product(r.a_0, z, k, i);
        lemma_identity_product(r.b_0, z, k, i);
        lemma_identity_product(r.c_0, z, k, i);
    }
}

/// With `A` or `B` zero and `C` the identity, only the zero witness satisfies
/// the constraint.
pub proof fn lemma_zero_matrices_require_zero_witness(r: BlockR1cs, z: Seq<bool>)
    requires
        r.wf(),
        is_zero(r.a_0) || is_zero(r.b_0),
        is_identity(r.c_0),
        z.len() == pow2(r.m as nat),
    ensures
        r.satisfied_by(z) <==> (forall|i: int| 0 <= i < z.len() ==> !(#[trigger] z[i])),
{
    let k = pow2(r.k_log as nat) as int;
    lemma_blocks(r.m as nat, r.k_log as nat);
    assert forall|i: int| 0 <= i < z.len() implies #[trigger] r.c_0.block_bit(z, k, i) == z[i] && !(
    r.a_0.block_bit(z, k, i) && r.b_0.block_bit(z, k, i)) by {
        lemma_identity_product(r.c_0, z, k, i);
        if is_zero(r.a_0) {
            lemma_zero_product(r.a_0, z, k, i);
        } else {
            lemma_zero_product(r.b_0, z, k, i);
        }
    }
    if r.satisfied_by(z) {
        assert forall|i: int| 0 <= i < z.len() implies !(#[trigger] z[i]) by {
            assert(r.c_0.block_bit(z, k, i) == z[i]);
        }
    }
}

// ---------------------------------------------------------------------------
// Constraints, row by row
// ---------------------------------------------------------------------------

/// The number of wires that the row lists and that are set in the block that starts at
/// `base`; a wire listed twice counts twice.
pub open spec fn set_wires(row: Seq<usize>, z: Seq<bool>, base: int) -> nat
    decreases row.len(),
{
    if row.len() == 0 {
        0
    } else {
        set_wires(row.drop_last(), z, base) + if z[base + row.last()] {
            1nat
        } else {
            0
        }
    }
}

/// Row `i` of the block that starts at `base` holds: its output is odd exactly
/// where both of its inputs are.
pub open spec fn gate_holds(r: BlockR1cs, z: Seq<bool>, base: int, i: int) -> bool {
    let left = set_wires(r.a_0.rows@[i]@, z, base) % 2;
    let right = set_wires(r.b_0.rows@[i]@, z, base) % 2;
    let output = set_wires(r.c_0.rows@[i]@, z, base) % 2;
    left * right == output
}

/// Every gate of every block holds.
pub open spec fn all_gates_hold(r: BlockR1cs, z: Seq<bool>) -> bool {
    forall|b: int, i: int|
        0 <= i < pow2(r.k_log as nat) && 0 <= b < pow2((r.m - r.k_log) as nat)
            ==> #[trigger] gate_holds(r, z, b * pow2(r.k_log as nat), i)
}

proof fn lemma_parity_counts(row: Seq<usize>, z: Seq<bool>, base: int)
    ensures
        parity(row.len(), |j: int| z[base + row[j]]) == (set_wires(row, z, base) % 2 == 1),
    decreases row.len(),
{
    if row.len() > 0 {
        let init = row.drop_last();
        lemma_parity_counts(init, z, base);
        let (f, g) = (|j: int| z[base + row[j]], |j: int| z[base + init[j]]);
        crate::r1cs::lemma_parity_ext(init.len(), f, g);
        assert(parity(row.len(), f) == (parity(init.len(), f) != f(init.len() as int)));
    }
}

/// A bit of a block-diagonal product is one exactly where an odd number of the wires that
/// its row lists are set in its block.
pub proof fn lemma_block_bit_counts(m: SparseBinaryMatrix, z: Seq<bool>, k: int, b: int, i: int)
    requires
        0 <= i < k,
        0 <= b,
        b * k + i < z.len(),
    ensures
        m.block_bit(z, k, b * k + i) == (set_wires(m.rows@[i]@, z, b * k) % 2 == 1),
        m.block_product(z, k)[b * k + i] == (set_wires(m.rows@[i]@, z, b * k) % 2 == 1),
{
    vstd::arithmetic::div_mod::lemma_fundamental_div_mod_converse(b * k + i, k, b, i);
    lemma_parity_counts(m.rows@[i]@, z, b * k);
    let (f, g) = (
        |j: int| z[((b * k + i) / k) * k + m.rows@[(b * k + i) % k]@[j]],
        |j: int| z[b * k + m.rows@[i]@[j]],
    );
    crate::r1cs::lemma_parity_ext(m.rows@[i]@.len(), f, g);
    assert(b * k >= 0) by (nonlinear_arith)
        requires
            b >= 0,
            k > 0,
    ;
}

proof fn lemma_position_of_row(b: int, n: int, k: int, i: int)
    by (nonlinear_arith)
    requires
        0 <= b < n,
        0 <= i < k,
    ensures
        0 <= b * k + i < n * k,
{
}

/// A witness satisfies an instance exactly where every row of every block holds:
/// a set output with an input that is not set is refused, and so is a clear output with both
/// inputs set.
pub proof fn lemma_satisfied_row_by_row(r: BlockR1cs, z: Seq<bool>)
    requires
        r.wf(),
        z.len() == pow2(r.m as nat),
    ensures
        r.satisfied_by(z) <==> all_gates_hold(r, z),
{
    let k = pow2(r.k_log as nat) as int;
    let n = pow2((r.m - r.k_log) as nat) as int;
    lemma_blocks(r.m as nat, r.k_log as nat);
    vstd::arithmetic::power2::lemma_pow2_pos(r.k_log as nat);
    vstd::arithmetic::power2::lemma_pow2_adds(r.k_log as nat, (r.m - r.k_log) as nat);
    assert(k * n == n * k) by (nonlinear_arith);
    let holds = |b: int, i: int|
        (r.a_0.block_bit(z, k, b * k + i) && r.b_0.block_bit(z, k, b * k + i))
            == r.c_0.block_bit(z, k, b * k + i);
    assert forall|b: int, i: int| 0 <= i < k && 0 <= b < n implies gate_holds(r, z, b * k, i)
        == #[trigger] holds(b, i) by {
        lemma_position_of_row(b, n, k, i);
        lemma_block_bit_counts(r.a_0, z, k, b, i);
        lemma_block_bit_counts(r.b_0, z, k, b, i);
        lemma_block_bit_counts(r.c_0, z, k, b, i);
        let (x, y, w) = (
            set_wires(r.a_0.rows@[i]@, z, b * k) % 2,
            set_wires(r.b_0.rows@[i]@, z, b * k) % 2,
            set_wires(r.c_0.rows@[i]@, z, b * k) % 2,
        );
        assert(x < 2 && y < 2 && w < 2);
        assert(x == 0 ==> x * y == 0);
        assert(x == 1 ==> x * y == y);
    }
    if r.satisfied_by(z) {
        assert forall|b: int, i: int|
            0 <= i < pow2(r.k_log as nat) && 0 <= b < pow2(
                (r.m - r.k_log) as nat,
            ) implies #[trigger] gate_holds(r, z, b * pow2(r.k_log as nat), i) by {
            lemma_position_of_row(b, n, k, i);
            assert(r.c_0.block_bit(z, k, b * k + i) == (r.a_0.block_bit(z, k, b * k + i)
                && r.b_0.block_bit(z, k, b * k + i)));
            assert(holds(b, i));
        }
    }
    if all_gates_hold(r, z) {
        assert forall|q: int| 0 <= q < z.len() implies (r.a_0.block_bit(z, k, q)
            && r.b_0.block_bit(z, k, q)) == #[trigger] r.c_0.block_bit(z, k, q) by {
            let (b, i) = (q / k, q % k);
            vstd::arithmetic::div_mod::lemma_fundamental_div_mod(q, k);
            vstd::arithmetic::div_mod::lemma_mod_bound(q, k);
            assert(0 <= b < n) by (nonlinear_arith)
                requires
                    q == k * b + i,
                    0 <= q < n * k,
                    0 <= i < k,
            ;
            assert(k * b == b * k) by (nonlinear_arith);
            assert(gate_holds(r, z, b * k, i));
            assert(holds(b, i));
        }
    }
}

/// In circuit form, with `C` the identity, a witness satisfies an instance exactly where
/// every bit is the product of the two inputs of its gate.
pub proof fn lemma_circuit_witness_is_gate_outputs(r: BlockR1cs, z: Seq<bool>)
    requires
        r.wf(),
        is_identity(r.c_0),
        z.len() == pow2(r.m as nat),
    ensures
        r.satisfied_by(z) <==> (forall|b: int, i: int|
            0 <= i < pow2(r.k_log as nat) && 0 <= b < pow2((r.m - r.k_log) as nat)
                ==> #[trigger] z[b * pow2(r.k_log as nat) + i] == (set_wires(
                r.a_0.rows@[i]@,
                z,
                b * pow2(r.k_log as nat),
            ) % 2 == 1 && set_wires(r.b_0.rows@[i]@, z, b * pow2(r.k_log as nat)) % 2 == 1)),
{
    let k = pow2(r.k_log as nat) as int;
    let n = pow2((r.m - r.k_log) as nat) as int;
    lemma_satisfied_row_by_row(r, z);
    assert forall|b: int, i: int| 0 <= i < k && 0 <= b < n implies #[trigger] gate_holds(
        r,
        z,
        b * k,
        i,
    ) == (z[b * k + i] == (set_wires(r.a_0.rows@[i]@, z, b * k) % 2 == 1 && set_wires(
        r.b_0.rows@[i]@,
        z,
        b * k,
    ) % 2 == 1)) by {
        let row = r.c_0.rows@[i]@;
        assert(row == seq![i as usize]);
        assert(row.drop_last() =~= Seq::<usize>::empty());
        assert(set_wires(row.drop_last(), z, b * k) == 0);
        let (x, y) = (
            set_wires(r.a_0.rows@[i]@, z, b * k) % 2,
            set_wires(r.b_0.rows@[i]@, z, b * k) % 2,
        );
        assert(x < 2 && y < 2);
        assert(x == 0 ==> x * y == 0);
        assert(x == 1 ==> x * y == y);
    }
    if forall|b: int, i: int|
        0 <= i < k && 0 <= b < n ==> #[trigger] z[b * k + i] == (set_wires(
            r.a_0.rows@[i]@,
            z,
            b * k,
        ) % 2 == 1 && set_wires(r.b_0.rows@[i]@, z, b * k) % 2 == 1) {
        assert forall|b: int, i: int| 0 <= i < k && 0 <= b < n implies #[trigger] gate_holds(
            r,
            z,
            b * k,
            i,
        ) by {
            assert(z[b * k + i] == z[b * k + i]);
        }
    }
    if r.satisfied_by(z) {
        assert forall|b: int, i: int| 0 <= i < k && 0 <= b < n implies #[trigger] z[b * k + i] == (
        set_wires(r.a_0.rows@[i]@, z, b * k) % 2 == 1 && set_wires(r.b_0.rows@[i]@, z, b * k) % 2
            == 1) by {
            assert(gate_holds(r, z, b * k, i));
        }
    }
}

// ---------------------------------------------------------------------------
// Products over the field
// ---------------------------------------------------------------------------

/// A bit as an element of the field.
pub open spec fn bit_value(b: bool) -> F128 {
    if b {
        F128::one()
    } else {
        F128::zero()
    }
}

/// The bit of the product is the sum of the row's entries times the vector,
/// over the field as over GF(2).
pub proof fn lemma_product_is_sum(m: SparseBinaryMatrix, z: Seq<bool>, r: int)
    requires
        m.wf(),
        0 <= r < m.num_rows,
        z.len() == m.num_cols,
    ensures
        bit_value(m.product_bit(z, r)) == sum(
            m.num_cols as nat,
            |c: int| bit_value(m.entry(r, c)) * bit_value(z[c]),
        ),
{
    let row = m.rows@[r]@;
    assert forall|j: int| 0 <= j < row.len() implies #[trigger] row[j] < m.num_cols by {
        assert(m.rows@[r]@[j] < m.num_cols);
    }
    lemma_row_is_sum(row, z, row.len());
    lemma_sum_ext(
        z.len(),
        |c: int| bit_value(parity(row.len(), |j: int| row[j] == c)) * bit_value(z[c]),
        |c: int| bit_value(m.entry(r, c)) * bit_value(z[c]),
    );
}

proof fn lemma_row_is_sum(row: Seq<usize>, z: Seq<bool>, n: nat)
    requires
        n <= row.len(),
        forall|j: int| 0 <= j < row.len() ==> #[trigger] row[j] < z.len(),
    ensures
        bit_value(parity(n, |j: int| z[row[j] as int])) == sum(
            z.len(),
            |c: int| bit_value(parity(n, |j: int| row[j] == c)) * bit_value(z[c]),
        ),
    decreases n,
{
    let zf = |j: int| z[row[j] as int];
    let total = |c: int| bit_value(parity(n, |j: int| row[j] == c)) * bit_value(z[c]);
    if n == 0 {
        assert forall|c: int| 0 <= c < z.len() implies #[trigger] total(c) == F128::zero() by {
            lemma_mul_units(bit_value(z[c]));
        }
        lemma_sum_zero(z.len(), total);
    } else {
        let p = (n - 1) as nat;
        lemma_row_is_sum(row, z, p);
        let prev = |c: int| bit_value(parity(p, |j: int| row[j] == c)) * bit_value(z[c]);
        let last = |c: int| bit_value(row[p as int] == c) * bit_value(z[c]);
        lemma_sum_add(z.len(), prev, last);
        let both = |c: int| prev(c) + last(c);
        assert forall|c: int| 0 <= c < z.len() implies #[trigger] total(c) == both(c) by {
            let h = |j: int| row[j] == c;
            lemma_bit_value_xor(parity(p, h), h(p as int));
            assert(parity(n, h) == (parity(p, h) != h(p as int)));
            lemma_mul_distributes(
                bit_value(z[c]),
                bit_value(parity(p, h)),
                bit_value(h(p as int)),
            );
        }
        lemma_sum_ext(z.len(), total, both);
        let at = row[p as int] as int;
        let fz = |c: int| bit_value(z[c]);
        lemma_one_term(z.len(), at, fz);
        lemma_sum_ext(z.len(), last, |c: int| bit_value(at == c) * fz(c));
        assert(parity(n, zf) == (parity(p, zf) != zf(p as int)));
        lemma_bit_value_xor(parity(p, zf), zf(p as int));
        assert(row[p as int] < z.len());
    }
}

/// The value of an exclusive or is the sum of the values.
pub proof fn lemma_bit_value_xor(a: bool, b: bool)
    ensures
        bit_value(a != b) == bit_value(a) + bit_value(b),
{
    lemma_add_rules(F128::one(), F128::zero(), F128::zero(), F128::zero());
    lemma_add_zero(F128::zero());
}

/// A sum in which one term counts.
pub proof fn lemma_one_term(n: nat, at: int, f: spec_fn(int) -> F128)
    requires
        0 <= at < n,
    ensures
        sum(n, |c: int| bit_value(at == c) * f(c)) == f(at),
    decreases n,
{
    let g = |c: int| bit_value(at == c) * f(c);
    let p = (n - 1) as nat;
    lemma_mul_units(f(p as int));
    lemma_add_zero(f(at));
    lemma_add_rules(F128::zero(), f(at), f(at), f(at));
    if at == n - 1 {
        assert forall|c: int| 0 <= c < p implies #[trigger] g(c) == F128::zero() by {
            lemma_mul_units(f(c));
        }
        lemma_sum_zero(p, g);
    } else {
        lemma_one_term(p, at, f);
        assert(g(p as int) == F128::zero());
    }
}

// ---------------------------------------------------------------------------
// The statement digest
// ---------------------------------------------------------------------------

pub(crate) proof fn lemma_le64_prefix(a: u64, b: u64, s: Seq<u8>, t: Seq<u8>)
    requires
        le64(a) + s == le64(b) + t,
    ensures
        a == b,
        s == t,
{
    lemma_auto_spec_u64_to_from_le_bytes();
    assert(le64(a).len() == 8 && le64(b).len() == 8);
    assert((le64(a) + s).subrange(0, 8) =~= le64(a));
    assert((le64(b) + t).subrange(0, 8) =~= le64(b));
    assert(spec_u64_from_le_bytes(le64(a)) == a);
    assert(spec_u64_from_le_bytes(le64(b)) == b);
    assert((le64(a) + s).subrange(8, 8 + s.len() as int) =~= s);
    assert((le64(a) + s).len() == 8 + s.len());
    assert((le64(b) + t).len() == 8 + t.len());
    assert((le64(b) + t).subrange(8, 8 + t.len() as int) =~= t);
}

proof fn lemma_columns_prefix(x: Seq<usize>, y: Seq<usize>, s: Seq<u8>, t: Seq<u8>)
    requires
        x.len() == y.len(),
        columns_bytes(x) + s == columns_bytes(y) + t,
    ensures
        x == y,
        s == t,
    decreases x.len(),
{
    if x.len() == 0 {
        assert(x =~= y);
        assert(columns_bytes(x) + s =~= s);
        assert(columns_bytes(y) + t =~= t);
    } else {
        let (xl, yl) = (le64(x.last() as u64), le64(y.last() as u64));
        assert(columns_bytes(x) + s =~= columns_bytes(x.drop_last()) + (xl + s));
        assert(columns_bytes(y) + t =~= columns_bytes(y.drop_last()) + (yl + t));
        lemma_columns_prefix(x.drop_last(), y.drop_last(), xl + s, yl + t);
        lemma_le64_prefix(x.last() as u64, y.last() as u64, s, t);
        assert(x =~= x.drop_last().push(x.last()));
        assert(y =~= y.drop_last().push(y.last()));
    }
}

/// The rows as plain sequences.
pub open spec fn row_views(rows: Seq<Vec<usize>>) -> Seq<Seq<usize>> {
    Seq::new(rows.len(), |i: int| rows[i]@)
}

proof fn lemma_rows_prefix(x: Seq<Vec<usize>>, y: Seq<Vec<usize>>, s: Seq<u8>, t: Seq<u8>)
    requires
        x.len() == y.len(),
        rows_bytes(x) + s == rows_bytes(y) + t,
        forall|i: int| 0 <= i < x.len() ==> (#[trigger] x[i])@.len() <= u64::MAX,
        forall|i: int| 0 <= i < y.len() ==> (#[trigger] y[i])@.len() <= u64::MAX,
    ensures
        row_views(x) == row_views(y),
        s == t,
    decreases x.len(),
{
    if x.len() == 0 {
        assert(row_views(x) =~= row_views(y));
        assert(rows_bytes(x) + s =~= s);
        assert(rows_bytes(y) + t =~= t);
    } else {
        let (xl, yl) = (x.last()@, y.last()@);
        assert(rows_bytes(x) + s =~= rows_bytes(x.drop_last()) + (row_bytes(xl) + s));
        assert(rows_bytes(y) + t =~= rows_bytes(y.drop_last()) + (row_bytes(yl) + t));
        lemma_rows_prefix(x.drop_last(), y.drop_last(), row_bytes(xl) + s, row_bytes(yl) + t);
        assert(row_bytes(xl) + s =~= le64(xl.len() as u64) + (columns_bytes(xl) + s));
        assert(row_bytes(yl) + t =~= le64(yl.len() as u64) + (columns_bytes(yl) + t));
        lemma_le64_prefix(
            xl.len() as u64,
            yl.len() as u64,
            columns_bytes(xl) + s,
            columns_bytes(yl) + t,
        );
        assert(x[x.len() - 1]@.len() <= u64::MAX);
        assert(y[y.len() - 1]@.len() <= u64::MAX);
        lemma_columns_prefix(xl, yl, s, t);
        assert(row_views(x) =~= row_views(x.drop_last()).push(xl));
        assert(row_views(y) =~= row_views(y.drop_last()).push(yl));
    }
}

proof fn lemma_matrix_prefix(x: SparseBinaryMatrix, y: SparseBinaryMatrix, s: Seq<u8>, t: Seq<u8>)
    requires
        x.rows@.len() == x.num_rows,
        y.rows@.len() == y.num_rows,
        x.bytes() + s == y.bytes() + t,
        forall|i: int| 0 <= i < x.rows@.len() ==> (#[trigger] x.rows@[i])@.len() <= u64::MAX,
        forall|i: int| 0 <= i < y.rows@.len() ==> (#[trigger] y.rows@[i])@.len() <= u64::MAX,
    ensures
        same_matrix(x, y),
        s == t,
{
    let (xc, yc) = (rows_bytes(x.rows@) + s, rows_bytes(y.rows@) + t);
    assert(x.bytes() + s =~= le64(x.num_rows as u64) + (le64(x.num_cols as u64) + xc));
    assert(y.bytes() + t =~= le64(y.num_rows as u64) + (le64(y.num_cols as u64) + yc));
    lemma_le64_prefix(
        x.num_rows as u64,
        y.num_rows as u64,
        le64(x.num_cols as u64) + xc,
        le64(y.num_cols as u64) + yc,
    );
    lemma_le64_prefix(x.num_cols as u64, y.num_cols as u64, xc, yc);
    lemma_rows_prefix(x.rows@, y.rows@, s, t);
}

/// The matrices have the same shape and list the same columns.
pub open spec fn same_matrix(x: SparseBinaryMatrix, y: SparseBinaryMatrix) -> bool {
    &&& x.num_rows == y.num_rows
    &&& x.num_cols == y.num_cols
    &&& row_views(x.rows@) == row_views(y.rows@)
}

/// The lists of rows are as long as the matrices say, and no length exceeds
/// what eight bytes hold.
pub open spec fn lengths_fit(r: BlockR1cs) -> bool {
    &&& r.a_0.rows@.len() == r.a_0.num_rows
    &&& r.b_0.rows@.len() == r.b_0.num_rows
    &&& r.c_0.rows@.len() == r.c_0.num_rows
    &&& forall|i: int| 0 <= i < r.a_0.rows@.len() ==> (#[trigger] r.a_0.rows@[i])@.len() <= u64::MAX
    &&& forall|i: int| 0 <= i < r.b_0.rows@.len() ==> (#[trigger] r.b_0.rows@[i])@.len() <= u64::MAX
    &&& forall|i: int| 0 <= i < r.c_0.rows@.len() ==> (#[trigger] r.c_0.rows@[i])@.len() <= u64::MAX
}

proof fn lemma_regroup(
    l: Seq<u8>,
    a: Seq<u8>,
    b: Seq<u8>,
    c: Seq<u8>,
    d: Seq<u8>,
    e: Seq<u8>,
    f: Seq<u8>,
)
    ensures
        l + a + b + c + d + e + f == l + (a + (b + (c + (d + (e + (f + Seq::<u8>::empty())))))),
{
    assert(f + Seq::<u8>::empty() =~= f);
    assert(l + a + b + c + d + e + f =~= l + a + b + c + d + (e + f));
    assert(l + a + b + c + d + (e + f) =~= l + a + b + c + (d + (e + f)));
    assert(l + a + b + c + (d + (e + f)) =~= l + a + b + (c + (d + (e + f))));
    assert(l + a + b + (c + (d + (e + f))) =~= l + a + (b + (c + (d + (e + f)))));
    assert(l + a + (b + (c + (d + (e + f)))) =~= l + (a + (b + (c + (d + (e + f))))));
}

pub(crate) proof fn lemma_same_prefix(l: Seq<u8>, s: Seq<u8>, t: Seq<u8>)
    requires
        l + s == l + t,
    ensures
        s == t,
{
    assert((l + s).len() == l.len() + s.len());
    assert((l + t).len() == l.len() + t.len());
    assert((l + s).subrange(l.len() as int, (l + s).len() as int) =~= s);
    assert((l + t).subrange(l.len() as int, (l + t).len() as int) =~= t);
}

/// The statement starts with its label and the three parameters, eight bytes each.
pub proof fn lemma_statement_starts_with_parameters(r: BlockR1cs)
    ensures
        r.statement_bytes().take(42) == ascii("flock-r1cs-stmt-v0"@) + le64(r.m as u64) + le64(
            r.k_log as u64,
        ) + le64(r.k_skip as u64),
{
    reveal_strlit("flock-r1cs-stmt-v0");
    lemma_auto_spec_u64_to_from_le_bytes();
    let text = ascii("flock-r1cs-stmt-v0"@);
    assert(statement_label() =~= text);
    let head = text + le64(r.m as u64) + le64(r.k_log as u64) + le64(r.k_skip as u64);
    assert(head.len() == 42);
    assert(r.statement_bytes().take(42) =~= head);
}

/// Two instances are hashed alike only if they have the same parameters and
/// the same matrices: the statement encoding is injective.
pub proof fn lemma_statement_encoding_injective(x: BlockR1cs, y: BlockR1cs)
    requires
        lengths_fit(x),
        lengths_fit(y),
        x.statement_bytes() == y.statement_bytes(),
    ensures
        x.m == y.m,
        x.k_log == y.k_log,
        x.k_skip == y.k_skip,
        same_matrix(x.a_0, y.a_0),
        same_matrix(x.b_0, y.b_0),
        same_matrix(x.c_0, y.c_0),
{
    let l = statement_label();
    let e = Seq::<u8>::empty();
    let (x3, y3) = (x.c_0.bytes() + e, y.c_0.bytes() + e);
    let (x2, y2) = (x.b_0.bytes() + x3, y.b_0.bytes() + y3);
    let (x1, y1) = (x.a_0.bytes() + x2, y.a_0.bytes() + y2);
    let (xs, ys) = (le64(x.k_skip as u64) + x1, le64(y.k_skip as u64) + y1);
    let (xk, yk) = (le64(x.k_log as u64) + xs, le64(y.k_log as u64) + ys);
    let (xm, ym) = (le64(x.m as u64) + xk, le64(y.m as u64) + yk);
    lemma_regroup(
        l,
        le64(x.m as u64),
        le64(x.k_log as u64),
        le64(x.k_skip as u64),
        x.a_0.bytes(),
        x.b_0.bytes(),
        x.c_0.bytes(),
    );
    lemma_regroup(
        l,
        le64(y.m as u64),
        le64(y.k_log as u64),
        le64(y.k_skip as u64),
        y.a_0.bytes(),
        y.b_0.bytes(),
        y.c_0.bytes(),
    );
    lemma_same_prefix(l, xm, ym);
    lemma_le64_prefix(x.m as u64, y.m as u64, xk, yk);
    lemma_le64_prefix(x.k_log as u64, y.k_log as u64, xs, ys);
    lemma_le64_prefix(x.k_skip as u64, y.k_skip as u64, x1, y1);
    lemma_matrix_prefix(x.a_0, y.a_0, x2, y2);
    lemma_matrix_prefix(x.b_0, y.b_0, x3, y3);
    lemma_matrix_prefix(x.c_0, y.c_0, e, e);
}

} // verus!
