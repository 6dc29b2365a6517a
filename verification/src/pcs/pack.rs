//! Bit-witness packing into F_{2^128} for the PCS commitment phase.
//!
//! The witness `z : {0,1}^m → {0,1}` is laid out as a flat 2^m-length bool
//! array. Packing groups the **first** `LOG_PACKING = 7` boolean coordinates
//! into one F_{2^128} element, leaving an array of 2^(m−7) packed elements
//! indexed by the remaining m−7 outer coords.
//!
//! Layout convention: for packed index `i_rest ∈ {0..2^(m−7)}` and bit position
//! `i_skip ∈ {0..128}`,
//! ```text
//!     bit i_skip of out[i_rest]  ==  z[i_rest * 128 + i_skip]
//! ```
//! where "bit i_skip of an F_{2^128} element" means the i_skip-th coordinate of
//! its natural polynomial basis decomposition (i.e. the i_skip-th bit of the
//! u128 representation, little-endian).
use vstd::arithmetic::power2::{lemma2_to64, lemma_pow2_adds, lemma_pow2_pos, pow2};
use vstd::prelude::*;
use crate::bits::{bit64, lemma_bit64_extensional, lemma_bit64_ops, lemma_bit64_set};
use crate::field::F128;
use crate::index::pow2_usize;

verus! {

/// `log_2` of the packing width. F_{2^128} holds 128 bits = 2^7.
pub const LOG_PACKING: usize = 7;

/// Packing width (number of bits per F_{2^128} element).
pub const PACKING_WIDTH: usize = 128;

/// Coordinate `i` of an element in its polynomial basis.
pub open spec fn element_bit(e: F128, i: int) -> bool {
    if i < 64 {
        bit64(e.lo, i)
    } else {
        bit64(e.hi, i - 64)
    }
}

/// Bit `i` of a packed witness.
pub open spec fn packed_bit(z: Seq<F128>, i: int) -> bool {
    element_bit(z[i / 128], i % 128)
}

/// The bits of a packed witness.
pub open spec fn unpacked(z: Seq<F128>) -> Seq<bool> {
    Seq::new(128 * z.len(), |i: int| packed_bit(z, i))
}

/// An element is determined by its coordinates.
pub proof fn lemma_element_extensional(a: F128, b: F128)
    requires
        forall|i: int| 0 <= i < 128 ==> #[trigger] element_bit(a, i) == element_bit(b, i),
    ensures
        a == b,
{
    assert forall|i: int| 0 <= i < 64 implies #[trigger] bit64(a.lo, i) == bit64(b.lo, i) by {
        assert(element_bit(a, i) == element_bit(b, i));
    }
    assert forall|i: int| 0 <= i < 64 implies #[trigger] bit64(a.hi, i) == bit64(b.hi, i) by {
        assert(element_bit(a, i + 64) == element_bit(b, i + 64));
    }
    lemma_bit64_extensional(a.lo, b.lo);
    lemma_bit64_extensional(a.hi, b.hi);
}

/// A packed witness is determined by its bits: packing undoes unpacking.
pub proof fn lemma_unpacked_injective(a: Seq<F128>, b: Seq<F128>)
    requires
        unpacked(a) == unpacked(b),
    ensures
        a == b,
{
    assert(unpacked(a).len() == 128 * a.len() && unpacked(b).len() == 128 * b.len());
    assert forall|i: int| 0 <= i < a.len() implies a[i] == b[i] by {
        assert forall|r: int| 0 <= r < 128 implies #[trigger] element_bit(a[i], r) == element_bit(b[i], r) by {
            let g = 128 * i + r;
            assert(g / 128 == i && g % 128 == r);
            assert(unpacked(a)[g] == packed_bit(a, g) && unpacked(b)[g] == packed_bit(b, g));
        }
        lemma_element_extensional(a[i], b[i]);
    }
    assert(a =~= b);
}

/// The number of packed elements.
pub proof fn lemma_packed_len(m: nat)
    requires
        m >= 7,
    ensures
        pow2(m) == 128 * pow2((m - 7) as nat),
        pow2((m - 7) as nat) >= 1,
{
    lemma2_to64();
    lemma_pow2_adds(7, (m - 7) as nat);
    lemma_pow2_pos((m - 7) as nat);
}

/// Pack the 64 bits from `base` on into one word.
fn pack64(z: &[bool], base: usize) -> (w: u64)
    requires
        base + 64 <= z@.len(),
    ensures
        forall|i: int| 0 <= i < 64 ==> #[trigger] bit64(w, i) == z@[base + i],
{
    let len: usize = z.len();
    let mut w: u64 = 0;
    let mut i: usize = 0;
    proof {
        assert forall|q: int| 0 <= q < 64 implies !(#[trigger] bit64(w, q)) by {
            lemma_bit64_ops(0, 0, q);
        }
    }
    while i < 64
        invariant
            i <= 64,
            len == z@.len(),
            base + 64 <= len,
            forall|q: int| 0 <= q < 64 ==> #[trigger] bit64(w, q) == (q < i && z@[base + q]),
        decreases 64 - i,
    {
        if z[base + i] {
            proof {
                assert forall|q: int| 0 <= q < 64 implies #[trigger] bit64(
                    w | (1u64 << (i as u64)),
                    q,
                ) == (q < i + 1 && z@[base + q]) by {
                    lemma_bit64_set(w, i as int, q);
                    assert(bit64(w, q) == (q < i && z@[base + q]));
                }
            }
            w = w | (1u64 << (i as u64));
        }
        i = i + 1;
    }
    w
}

/// Pack a Boolean witness `z` of length `2^m` into `2^(m − LOG_PACKING)`
/// F_{2^128} elements.
///
/// See module docs for the layout convention.
pub fn pack_witness(z: &[bool], m: usize) -> (out: Vec<F128>)
    requires
        m >= LOG_PACKING,
        z@.len() == pow2(m as nat),
    ensures
        out@.len() == pow2((m - LOG_PACKING) as nat),
        unpacked(out@) == z@,
{
    let len: usize = z.len();
    proof {
        lemma_packed_len(m as nat);
    }
    let n_packed: usize = pow2_usize(m - LOG_PACKING);
    let mut out: Vec<F128> = Vec::with_capacity(n_packed);
    let mut i_rest: usize = 0;
    while i_rest < n_packed
        invariant
            i_rest <= n_packed,
            len == z@.len(),
            len == 128 * n_packed,
            out@.len() == i_rest,
            forall|i: int| 0 <= i < 128 * i_rest ==> #[trigger] packed_bit(out@, i) == z@[i],
        decreases n_packed - i_rest,
    {
        let base: usize = i_rest * PACKING_WIDTH;
        let ghost before = out@;
        let e = F128 { lo: pack64(z, base), hi: pack64(z, base + 64) };
        out.push(e);
        proof {
            assert forall|i: int| 0 <= i < 128 * (i_rest + 1) implies #[trigger] packed_bit(out@, i) == z@[i] by {
                if i < 128 * i_rest {
                    assert(packed_bit(before, i) == z@[i]);
                    assert(out@[i / 128] == before[i / 128]);
                } else {
                    let r = i - 128 * i_rest;
                    assert(i / 128 == i_rest && i % 128 == r);
                    if r < 64 {
                        assert(bit64(e.lo, r) == z@[base + r]);
                    } else {
                        assert(bit64(e.hi, r - 64) == z@[base + 64 + (r - 64)]);
                    }
                }
            }
        }
        i_rest = i_rest + 1;
    }
    proof {
        assert(unpacked(out@) =~= z@);
    }
    out
}

/// Bit `r` of a word.
#[inline]
pub fn word_bit(w: u64, r: usize) -> (b: bool)
    requires
        r < 64,
    ensures
        b == bit64(w, r as int),
{
    (w >> (r as u64)) & 1 == 1
}

/// Inverse of [`pack_witness`]: unpack F_{2^128} elements back to a Boolean
/// witness of length `2^m`.
pub fn unpack_witness(packed: &[F128], m: usize) -> (out: Vec<bool>)
    requires
        m >= LOG_PACKING,
        pow2(m as nat) <= usize::MAX,
        packed@.len() == pow2((m - LOG_PACKING) as nat),
    ensures
        out@.len() == pow2(m as nat),
        out@ == unpacked(packed@),
{
    proof {
        lemma_packed_len(m as nat);
    }
    let n_packed: usize = packed.len();
    let mut out: Vec<bool> = Vec::with_capacity(pow2_usize(m));
    let mut i_rest: usize = 0;
    while i_rest < n_packed
        invariant
            i_rest <= n_packed,
            n_packed == packed@.len(),
            128 * n_packed <= usize::MAX,
            out@.len() == 128 * i_rest,
            forall|i: int| 0 <= i < 128 * i_rest ==> out@[i] == #[trigger] packed_bit(packed@, i),
        decreases n_packed - i_rest,
    {
        let elem = packed[i_rest];
        let mut r: usize = 0;
        while r < 128
            invariant
                r <= 128,
                i_rest < n_packed,
                n_packed == packed@.len(),
                elem == packed@[i_rest as int],
                out@.len() == 128 * i_rest + r,
                forall|i: int|
                    0 <= i < 128 * i_rest + r ==> out@[i] == #[trigger] packed_bit(packed@, i),
            decreases 128 - r,
        {
            let bit = if r < 64 {
                word_bit(elem.lo, r)
            } else {
                word_bit(elem.hi, r - 64)
            };
            proof {
                let g = 128 * i_rest + r;
                assert(g / 128 == i_rest && g % 128 == r);
            }
            out.push(bit);
            r = r + 1;
        }
        i_rest = i_rest + 1;
    }
    out
}

/// The coordinates of an element are the binary digits of its 128-bit number, `lo` in the
/// low half, and the bits of a packed witness are those digits, element by element.
pub proof fn lemma_packed_bits_are_digits(z: Seq<F128>, j: int, i: nat)
    requires
        0 <= j < z.len(),
        i < 128,
    ensures
        unpacked(z).len() == 128 * z.len(),
        unpacked(z)[128 * j + i] == ((z[j].lo as nat + pow2(64) * z[j].hi as nat) / pow2(i) % 2
            == 1),
{
    let e = z[j];
    let (lo, hi) = (e.lo as nat, e.hi as nat);
    lemma2_to64();
    assert((128 * j + i) / 128 == j && (128 * j + i) % 128 == i as int);
    lemma_pow2_pos(i);
    if i < 64 {
        crate::pcs::ring_switch::lemma_bit64_is_index_bit(e.lo, i as int);
        let d = (64 - i) as nat;
        lemma_pow2_adds(i, d);
        vstd::arithmetic::power2::lemma_pow2_unfold(d);
        let (p, q) = (pow2(i) as int, pow2((d - 1) as nat) as int);
        let a = lo as int / p;
        vstd::arithmetic::div_mod::lemma_fundamental_div_mod(lo as int, p);
        vstd::arithmetic::div_mod::lemma_mod_bound(lo as int, p);
        let t = 2 * (q * hi);
        assert(lo + pow2(64) * hi == (a + t) * p + (lo as int % p)) by (nonlinear_arith)
            requires
                lo == p * a + (lo as int % p),
                pow2(64) == p * (2 * q),
                t == 2 * (q * hi),
        ;
        vstd::arithmetic::div_mod::lemma_fundamental_div_mod_converse(
            (lo + pow2(64) * hi) as int,
            p,
            a + t,
            lo as int % p,
        );
        assert((a + t) % 2 == a % 2);
    } else {
        let r = (i - 64) as nat;
        crate::pcs::ring_switch::lemma_bit64_is_index_bit(e.hi, r as int);
        lemma_pow2_adds(64, r);
        lemma_pow2_pos(r);
        let n = (lo + pow2(64) * hi) as int;
        vstd::arithmetic::div_mod::lemma_div_denominator(n, pow2(64) as int, pow2(r) as int);
        vstd::arithmetic::div_mod::lemma_fundamental_div_mod_converse(
            n,
            pow2(64) as int,
            hi as int,
            lo as int,
        );
    }
}

} // verus!
