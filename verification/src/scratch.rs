//! Pool for the prover's large transient `F128` buffers.
//!
//! Each prove allocates, faults in, and frees several 64–128 MB vectors
//! (the RS codeword, the round-2 fold outputs, the multilinear tail's
//! ping-pong scratch). The allocator returns such allocations to the OS on
//! free, so every prove re-pays soft page faults on first touch and a
//! single-threaded unmap on drop.
//!
//! The pool recycles those buffers across phases and across proves: `take`
//! hands out a previously-used buffer when one with enough capacity exists,
//! `give` returns a buffer for later reuse.
//!
//! Steady-state retention is bounded by [`MAX_POOLED`] buffers. Call [`clear`]
//! to release everything, e.g. after the last prove of a batch.
use vstd::arithmetic::power2::{lemma_pow2_strictly_increases, pow2};
use vstd::prelude::*;
use crate::field::F128;
use crate::index::pow2_usize;
use crate::scratch::laws::{lemma_best_fit_is_unique, lemma_smallest_is_unique, lemma_warming};

pub mod laws;

verus! {

/// Max buffers retained.
pub const MAX_POOLED: usize = 24;

/// Buffers that wait to be used again.
#[derive(Debug)]
pub struct Pool {
    pub buffers: Vec<Vec<F128>>,
}

/// The sequence of `n` zeros.
pub open spec fn zeros(n: nat) -> Seq<F128> {
    Seq::new(n, |i: int| F128::zero())
}

impl Pool {
    /// The pool is bounded.
    pub open spec fn wf(&self) -> bool {
        self.buffers@.len() <= MAX_POOLED
    }

    /// An empty pool.
    pub fn new() -> (r: Pool)
        ensures
            r.wf(),
            r.buffers@.len() == 0,
    {
        Pool { buffers: Vec::new() }
    }
}

/// `Vec::capacity`: the number of elements that the vector can hold without
/// reallocating, which is no less than it holds. How much more the allocator
/// gave is left open.
#[verifier::external_body]
fn capacity(v: &Vec<F128>) -> (c: usize)
    ensures
        c >= v@.len(),
{
    v.capacity()
}

/// Capacities that the buffers can have: none is below what its buffer holds.
pub open spec fn can_have_capacities(buffers: Seq<Vec<F128>>, capacities: Seq<usize>) -> bool {
    &&& capacities.len() == buffers.len()
    &&& forall|j: int|
        0 <= j < buffers.len() ==> #[trigger] capacities[j] >= buffers[j]@.len()
}

/// The capacities of the pooled buffers.
fn capacities(pool: &Pool) -> (out: Vec<usize>)
    ensures
        can_have_capacities(pool.buffers@, out@),
{
    let n: usize = pool.buffers.len();
    let mut out: Vec<usize> = Vec::with_capacity(n);
    let mut i: usize = 0;
    while i < n
        invariant
            i <= n,
            n == pool.buffers@.len(),
            out@.len() == i,
            forall|j: int| 0 <= j < i ==> #[trigger] out@[j] >= pool.buffers@[j]@.len(),
        decreases n - i,
    {
        out.push(capacity(&pool.buffers[i]));
        i = i + 1;
    }
    out
}

/// Buffer `i` is the first among those with the smallest sufficient capacity for `n` elements.
pub open spec fn is_best_fit(capacities: Seq<usize>, n: usize, i: int) -> bool {
    &&& 0 <= i < capacities.len()
    &&& capacities[i] >= n
    &&& forall|j: int|
        0 <= j < capacities.len() && #[trigger] capacities[j] >= n ==> capacities[i]
            <= capacities[j]
    &&& forall|j: int|
        0 <= j < i && #[trigger] capacities[j] >= n ==> capacities[i] < capacities[j]
}

/// The buffer to take for `n` elements: the first among those with the
/// smallest sufficient capacity.
pub fn best_fit(capacities: &[usize], n: usize) -> (r: Option<usize>)
    ensures
        match r {
            None => forall|j: int| 0 <= j < capacities@.len() ==> #[trigger] capacities@[j] < n,
            Some(i) => is_best_fit(capacities@, n, i as int),
        },
{
    let len: usize = capacities.len();
    let mut best: Option<usize> = None;
    let mut j: usize = 0;
    while j < len
        invariant
            j <= len,
            len == capacities@.len(),
            match best {
                None => forall|k: int| 0 <= k < j ==> #[trigger] capacities@[k] < n,
                Some(i) => {
                    &&& i < j
                    &&& capacities@[i as int] >= n
                    &&& forall|k: int|
                        0 <= k < j && #[trigger] capacities@[k] >= n ==> capacities@[i as int]
                            <= capacities@[k]
                    &&& forall|k: int|
                        0 <= k < i && #[trigger] capacities@[k] >= n ==> capacities@[i as int]
                            < capacities@[k]
                },
            },
        decreases len - j,
    {
        if capacities[j] >= n {
            match best {
                None => {
                    best = Some(j);
                },
                Some(b) => {
                    if capacities[j] < capacities[b] {
                        best = Some(j);
                    }
                },
            }
        }
        j = j + 1;
    }
    best
}

/// Buffer `i` is the first among those with the smallest capacity.
pub open spec fn is_smallest(capacities: Seq<usize>, i: int) -> bool {
    &&& 0 <= i < capacities.len()
    &&& forall|j: int|
        0 <= j < capacities.len() ==> capacities[i] <= #[trigger] capacities[j]
    &&& forall|j: int| 0 <= j < i ==> capacities[i] < #[trigger] capacities[j]
}

/// The buffer to evict: the first among those with the smallest capacity.
pub fn smallest(capacities: &[usize]) -> (i: usize)
    requires
        capacities@.len() > 0,
    ensures
        is_smallest(capacities@, i as int),
{
    let len: usize = capacities.len();
    let mut i: usize = 0;
    let mut j: usize = 1;
    while j < len
        invariant
            1 <= j <= len,
            i < j,
            len == capacities@.len(),
            forall|k: int| 0 <= k < j ==> capacities@[i as int] <= #[trigger] capacities@[k],
            forall|k: int| 0 <= k < i ==> capacities@[i as int] < #[trigger] capacities@[k],
        decreases len - j,
    {
        if capacities[j] < capacities[i] {
            i = j;
        }
        j = j + 1;
    }
    i
}

/// The sequence without element `i`, whose place the last one takes.
pub open spec fn without<T>(s: Seq<T>, i: int) -> Seq<T> {
    s.update(i, s.last()).drop_last()
}

/// Take buffer `i` out of the pool as a length-`n` vector of zeros.
fn take_at(pool: &mut Pool, i: usize, n: usize) -> (v: Vec<F128>)
    requires
        i < old(pool).buffers@.len(),
    ensures
        v@ == zeros(n as nat),
        final(pool).buffers@ == without(old(pool).buffers@, i as int),
{
    let mut v = pool.buffers.swap_remove(i);
    v.clear();
    v.resize(n, F128::zero());
    assert(v@ =~= zeros(n as nat));
    v
}

/// Allocate a length-`n` vector of zeros.
fn fresh(n: usize) -> (v: Vec<F128>)
    ensures
        v@ == zeros(n as nat),
{
    let mut v: Vec<F128> = Vec::with_capacity(n);
    v.resize(n, F128::zero());
    assert(v@ =~= zeros(n as nat));
    v
}

/// Take a length-`n` `F128` vector of zeros out of a pool whose buffers have the given
/// capacities: out of the first buffer with the smallest capacity ≥ `n`, if there is one.
pub fn take_by(pool: &mut Pool, capacities: &[usize], n: usize) -> (r: Option<Vec<F128>>)
    requires
        old(pool).wf(),
        capacities@.len() == old(pool).buffers@.len(),
    ensures
        final(pool).wf(),
        match r {
            None => {
                &&& forall|j: int| 0 <= j < capacities@.len() ==> #[trigger] capacities@[j] < n
                &&& final(pool).buffers@ == old(pool).buffers@
            },
            Some(v) => {
                &&& v@ == zeros(n as nat)
                &&& exists|i: int| #[trigger]
                    is_best_fit(capacities@, n, i) && final(pool).buffers@ == without(
                        old(pool).buffers@,
                        i,
                    )
            },
        },
{
    match best_fit(capacities, n) {
        None => None,
        Some(i) => {
            assert(is_best_fit(capacities@, n, i as int));
            Some(take_at(pool, i, n))
        },
    }
}

/// Return a buffer to a pool, where the capacities of the pooled buffers and, last, that
/// of the returned one are given. A buffer without capacity is dropped. When the pool is
/// full, the first buffer with the smallest capacity is evicted, be it the returned one.
pub fn give_by(pool: &mut Pool, v: Vec<F128>, capacities: &[usize])
    requires
        old(pool).wf(),
        capacities@.len() == old(pool).buffers@.len() + 1,
    ensures
        final(pool).wf(),
        capacities@.last() == 0 ==> final(pool).buffers@ == old(pool).buffers@,
        capacities@.last() > 0 && old(pool).buffers@.len() < MAX_POOLED ==> final(pool).buffers@
            == old(pool).buffers@.push(v),
        capacities@.last() > 0 && old(pool).buffers@.len() == MAX_POOLED ==> exists|i: int|
            #[trigger] is_smallest(capacities@, i) && final(pool).buffers@ == without(
                old(pool).buffers@.push(v),
                i,
            ),
{
    let n: usize = pool.buffers.len();
    if capacities[n] == 0 {
        return;
    }
    pool.buffers.push(v);
    let ghost pushed = pool.buffers@;
    if pool.buffers.len() > MAX_POOLED {
        let i: usize = smallest(capacities);
        let evicted = pool.buffers.swap_remove(i);
        assert(pool.buffers@ == without(pushed, i as int));
        assert(is_smallest(capacities@, i as int));
    }
}

/// Take a length-`n` `F128` vector of zeros, preferring a pooled buffer
/// (smallest capacity ≥ `n`); falls back to a fresh allocation. A pooled buffer
/// that holds `n` elements or more is capacity enough; what more capacity the
/// buffers have is up to the allocator, and [`take_by`] says which one is taken
/// for given capacities.
pub fn take_f128(pool: &mut Pool, n: usize) -> (v: Vec<F128>)
    requires
        old(pool).wf(),
    ensures
        v@ == zeros(n as nat),
        final(pool).wf(),
        final(pool).buffers@ == old(pool).buffers@ || exists|i: int|
            0 <= i < old(pool).buffers@.len() && final(pool).buffers@ == #[trigger] without(
                old(pool).buffers@,
                i,
            ),
        (exists|j: int|
            0 <= j < old(pool).buffers@.len() && (#[trigger] old(pool).buffers@[j])@.len() >= n)
            ==> exists|i: int|
            0 <= i < old(pool).buffers@.len() && final(pool).buffers@ == #[trigger] without(
                old(pool).buffers@,
                i,
            ),
{
    match try_take_f128(pool, n) {
        Some(v) => v,
        None => fresh(n),
    }
}

/// Pool-only variant of [`take_f128`]: returns `None` instead of falling
/// back to a fresh allocation. Lets callers branch on warm-vs-cold. There is a
/// buffer to take whenever one holds `n` elements or more.
pub fn try_take_f128(pool: &mut Pool, n: usize) -> (r: Option<Vec<F128>>)
    requires
        old(pool).wf(),
    ensures
        final(pool).wf(),
        match r {
            None => {
                &&& forall|j: int|
                    0 <= j < old(pool).buffers@.len() ==> (#[trigger] old(pool).buffers@[j])@.len()
                        < n
                &&& final(pool).buffers@ == old(pool).buffers@
            },
            Some(v) => {
                &&& v@ == zeros(n as nat)
                &&& exists|i: int|
                    0 <= i < old(pool).buffers@.len() && final(pool).buffers@
                        == #[trigger] without(old(pool).buffers@, i)
            },
        },
{
    let ghost before = pool.buffers@;
    let sizes = capacities(pool);
    let r = take_by(pool, &sizes, n);
    proof {
        if r is None {
            assert forall|j: int| 0 <= j < before.len() implies (#[trigger] before[j])@.len()
                < n by {
                assert(sizes@[j] < n);
            }
        } else {
            let i = choose|i: int| #[trigger]
                is_best_fit(sizes@, n, i) && pool.buffers@ == without(before, i);
            assert(pool.buffers@ == without(before, i));
        }
    }
    r
}

/// Return a buffer to the pool for reuse. When the pool is full, the
/// smallest-capacity buffer is evicted (large buffers are the expensive ones
/// to re-fault; a run that ramps problem sizes upward must not get its big
/// buffers crowded out by stale small ones). A buffer without capacity is
/// dropped. The capacities are up to the allocator; [`give_by`] says what happens
/// for given ones.
pub fn give_f128(pool: &mut Pool, v: Vec<F128>)
    requires
        old(pool).wf(),
    ensures
        final(pool).wf(),
        v@.len() > 0 && old(pool).buffers@.len() < MAX_POOLED ==> final(pool).buffers@ == old(
            pool,
        ).buffers@.push(v),
        v@.len() > 0 && old(pool).buffers@.len() == MAX_POOLED ==> exists|i: int|
            0 <= i <= MAX_POOLED && final(pool).buffers@ == #[trigger] without(
                old(pool).buffers@.push(v),
                i,
            ),
        v@.len() == 0 ==> final(pool).buffers@ == old(pool).buffers@ || (old(pool).buffers@.len()
            < MAX_POOLED && final(pool).buffers@ == old(pool).buffers@.push(v)) || (old(
            pool,
        ).buffers@.len() == MAX_POOLED && exists|i: int|
            0 <= i <= MAX_POOLED && final(pool).buffers@ == #[trigger] without(
                old(pool).buffers@.push(v),
                i,
            )),
{
    let ghost before = pool.buffers@;
    let mut sizes = capacities(pool);
    sizes.push(capacity(&v));
    give_by(pool, v, &sizes);
    proof {
        if sizes@.last() > 0 && before.len() == MAX_POOLED {
            let i = choose|i: int| #[trigger]
                is_smallest(sizes@, i) && pool.buffers@ == without(before.push(v), i);
            assert(pool.buffers@ == without(before.push(v), i));
        }
    }
}

/// The best fit for `n` elements, if a capacity is sufficient.
pub open spec fn fit(capacities: Seq<usize>, n: usize) -> Option<int> {
    if exists|i: int| is_best_fit(capacities, n, i) {
        Some(choose|i: int| is_best_fit(capacities, n, i))
    } else {
        None
    }
}

/// Pooled buffers and their capacities.
pub struct Shelf {
    pub buffers: Seq<Vec<F128>>,
    pub capacities: Seq<usize>,
}

impl Shelf {
    /// The shelf without buffer `i`.
    pub open spec fn without(self, i: int) -> Shelf {
        Shelf {
            buffers: without(self.buffers, i),
            capacities: without(self.capacities, i),
        }
    }

    /// The shelf once a buffer of the given capacity is returned to it.
    pub open spec fn with(self, v: Vec<F128>, capacity: usize) -> Shelf {
        let pushed = Shelf {
            buffers: self.buffers.push(v),
            capacities: self.capacities.push(capacity),
        };
        if capacity == 0 {
            self
        } else if pushed.buffers.len() <= MAX_POOLED {
            pushed
        } else {
            pushed.without(choose|i: int| is_smallest(pushed.capacities, i))
        }
    }
}

/// What is left once buffers for the first `t` sizes are taken, and the capacity of each
/// buffer that was found.
pub struct Taken {
    pub shelf: Shelf,
    pub found: Seq<Option<usize>>,
}

pub open spec fn taken(shelf: Shelf, sizes: Seq<usize>, t: nat) -> Taken
    decreases t,
{
    if t == 0 {
        Taken { shelf, found: Seq::empty() }
    } else {
        let p = taken(shelf, sizes, (t - 1) as nat);
        match fit(p.shelf.capacities, sizes[t - 1]) {
            None => Taken { shelf: p.shelf, found: p.found.push(None) },
            Some(i) => Taken {
                shelf: p.shelf.without(i),
                found: p.found.push(Some(p.shelf.capacities[i])),
            },
        }
    }
}

/// The shelf once the first `t` buffers are returned to it.
pub open spec fn parked(
    shelf: Shelf,
    buffers: Seq<Vec<F128>>,
    capacities: Seq<usize>,
    t: nat,
) -> Shelf
    decreases t,
{
    if t == 0 {
        shelf
    } else {
        parked(shelf, buffers, capacities, (t - 1) as nat).with(buffers[t - 1], capacities[t - 1])
    }
}

/// Take vectors of zeros of all the sizes, one after the other, out of a pool whose buffers
/// have the given capacities; what the pool does not have is allocated. Returned are the
/// vectors, the capacities of what is left in the pool, and those of the buffers that
/// were found in it.
pub fn take_all_by(pool: &mut Pool, capacities: Vec<usize>, sizes: &[usize]) -> (r: (
    Vec<Vec<F128>>,
    Vec<usize>,
    Vec<Option<usize>>,
))
    requires
        old(pool).wf(),
        capacities@.len() == old(pool).buffers@.len(),
    ensures
        final(pool).wf(),
        ({
            let shelf = Shelf { buffers: old(pool).buffers@, capacities: capacities@ };
            let t = taken(shelf, sizes@, sizes@.len());
            &&& final(pool).buffers@ == t.shelf.buffers
            &&& r.1@ == t.shelf.capacities
            &&& r.1@.len() == final(pool).buffers@.len()
            &&& r.2@ == t.found
            &&& r.2@.len() == sizes@.len()
        }),
        r.0@.len() == sizes@.len(),
        forall|k: int|
            0 <= k < sizes@.len() ==> (#[trigger] r.0@[k])@ == zeros(sizes@[k] as nat),
{
    let ghost shelf = Shelf { buffers: pool.buffers@, capacities: capacities@ };
    let n: usize = sizes.len();
    let mut left = capacities;
    let mut taken_out: Vec<Vec<F128>> = Vec::with_capacity(n);
    let mut found: Vec<Option<usize>> = Vec::with_capacity(n);
    let mut k: usize = 0;
    while k < n
        invariant
            k <= n,
            n == sizes@.len(),
            pool.wf(),
            left@.len() == pool.buffers@.len(),
            ({
                let t = taken(shelf, sizes@, k as nat);
                &&& pool.buffers@ == t.shelf.buffers
                &&& left@ == t.shelf.capacities
                &&& found@ == t.found
                &&& found@.len() == k
            }),
            taken_out@.len() == k,
            forall|q: int|
                0 <= q < k ==> (#[trigger] taken_out@[q])@ == zeros(sizes@[q] as nat),
        decreases n - k,
    {
        let size: usize = sizes[k];
        match best_fit(&left, size) {
            None => {
                taken_out.push(fresh(size));
                found.push(None);
            },
            Some(i) => {
                proof {
                    lemma_best_fit_is_unique(left@, size, i as int);
                }
                taken_out.push(take_at(pool, i, size));
                let c: usize = left.swap_remove(i);
                found.push(Some(c));
            },
        }
        k = k + 1;
    }
    (taken_out, left, found)
}

/// Return buffers of the given sizes to a pool whose buffers have the given capacities,
/// one after the other.
pub fn park_by(
    pool: &mut Pool,
    capacities: Vec<usize>,
    buffers: Vec<Vec<F128>>,
    sizes: &[usize],
)
    requires
        old(pool).wf(),
        capacities@.len() == old(pool).buffers@.len(),
        sizes@.len() == buffers@.len(),
    ensures
        final(pool).wf(),
        ({
            let shelf = Shelf { buffers: old(pool).buffers@, capacities: capacities@ };
            final(pool).buffers@ == parked(shelf, buffers@, sizes@, sizes@.len()).buffers
        }),
{
    let ghost shelf = Shelf { buffers: pool.buffers@, capacities: capacities@ };
    let ghost all = buffers@;
    let n: usize = sizes.len();
    let mut held = capacities;
    let mut rest = buffers;
    let mut k: usize = 0;
    while k < n
        invariant
            k <= n,
            n == sizes@.len(),
            n == all.len(),
            pool.wf(),
            held@.len() == pool.buffers@.len(),
            rest@ == all.skip(k as int),
            ({
                let p = parked(shelf, all, sizes@, k as nat);
                pool.buffers@ == p.buffers && held@ == p.capacities
            }),
        decreases n - k,
    {
        let v = rest.remove(0);
        assert(rest@ =~= all.skip(k + 1));
        let full: bool = pool.buffers.len() == MAX_POOLED;
        let ghost before = pool.buffers@;
        held.push(sizes[k]);
        give_by(pool, v, &held);
        if sizes[k] == 0 {
            let c = held.pop();
            assert(held@ =~= parked(shelf, all, sizes@, k as nat).capacities);
        } else if full {
            let i: usize = smallest(&held);
            proof {
                let j = choose|j: int| #[trigger]
                    is_smallest(held@, j) && pool.buffers@ == without(before.push(v), j);
                lemma_smallest_is_unique(held@, j);
                lemma_smallest_is_unique(held@, i as int);
            }
            let c: usize = held.swap_remove(i);
        }
        k = k + 1;
    }
}

/// The sizes of the prove-cycle buffer set at witness size `2^m`: five of the large class
/// and eleven of the small one.
pub open spec fn set_sizes(m: nat) -> Seq<usize> {
    Seq::new(
        16,
        |k: int|
            if k < 5 {
                pow2((m - 6) as nat) as usize
            } else {
                pow2((m - 7) as nat) as usize
            },
    )
}

/// The buffers are the prove-cycle set.
pub open spec fn is_set(buffers: Seq<Vec<F128>>, m: nat) -> bool {
    &&& buffers.len() == 16
    &&& forall|k: int|
        0 <= k < 16 ==> (#[trigger] buffers[k])@ == zeros(set_sizes(m)[k] as nat)
}

/// The capacities of taken buffers: of the one found, else of the one allocated.
pub open spec fn settled(found: Seq<Option<usize>>, allocated: Seq<usize>) -> Seq<usize> {
    Seq::new(
        found.len(),
        |k: int|
            match found[k] {
                Some(c) => c,
                None => allocated[k],
            },
    )
}

/// What warming makes of a pool whose buffers have the given capacities, where the set
/// consists of the given buffers and `allocated` are the capacities of the fresh ones:
/// the set is taken, then it is parked.
pub open spec fn warmed(
    before: Seq<Vec<F128>>,
    capacities: Seq<usize>,
    set: Seq<Vec<F128>>,
    allocated: Seq<usize>,
    m: nat,
) -> Seq<Vec<F128>> {
    let t = taken(Shelf { buffers: before, capacities }, set_sizes(m), 16);
    parked(t.shelf, set, settled(t.found, allocated), 16).buffers
}

/// The buffers, their capacities and those of fresh buffers are possible ones.
pub open spec fn can_warm(
    before: Seq<Vec<F128>>,
    capacities: Seq<usize>,
    set: Seq<Vec<F128>>,
    allocated: Seq<usize>,
    m: nat,
) -> bool {
    &&& can_have_capacities(before, capacities)
    &&& is_set(set, m)
    &&& allocated.len() == 16
    &&& forall|k: int| 0 <= k < 16 ==> #[trigger] allocated[k] >= set_sizes(m)[k]
}

/// The number of elements with the property.
pub open spec fn count<T>(s: Seq<T>, p: spec_fn(T) -> bool) -> nat
    decreases s.len(),
{
    if s.len() == 0 {
        0
    } else {
        count(s.drop_last(), p) + if p(s.last()) {
            1nat
        } else {
            0
        }
    }
}

/// The buffers of `n` zeros.
pub open spec fn is_zeroed(n: nat) -> spec_fn(Vec<F128>) -> bool {
    |v: Vec<F128>| v@ == zeros(n)
}

/// The buffers that hold `n` elements or more.
pub open spec fn holds(n: nat) -> spec_fn(Vec<F128>) -> bool {
    |v: Vec<F128>| v@.len() >= n
}

/// The pool can supply the whole set, by what its buffers hold.
pub open spec fn is_warm(buffers: Seq<Vec<F128>>, m: nat) -> bool {
    &&& count(buffers, holds(pow2((m - 6) as nat))) >= 5
    &&& count(buffers, holds(pow2((m - 7) as nat))) >= 16
}

/// What warming a pool leaves in it, whatever the capacities.
pub open spec fn stays_warm(
    before: Seq<Vec<F128>>,
    after: Seq<Vec<F128>>,
    m: nat,
) -> bool {
    &&& after.len() >= 16
    &&& before.len() <= after.len() <= before.len() + 16
    &&& is_warm(before, m) ==> after.len() == before.len()
    &&& count(after, is_zeroed(pow2((m - 6) as nat))) >= 5
    &&& count(after, is_zeroed(pow2((m - 7) as nat))) >= (if before.len() <= 19 {
        11
    } else {
        30 - before.len()
    })
    &&& before.len() <= 8 || is_warm(before, m) ==> is_set(
        after.skip(after.len() - 16),
        m,
    )
    &&& forall|j: int|
        0 <= j < after.len() ==> {
            ||| before.contains(#[trigger] after[j])
            ||| after[j]@ == zeros(pow2((m - 6) as nat))
            ||| after[j]@ == zeros(pow2((m - 7) as nat))
        }
}

/// Pre-warm the pool for proves at witness size `2^m`: allocate and write the
/// full prove-cycle buffer set once, then park it in the pool.
///
/// The set (sizes in F128s): 2^(m-6)-class — L0 codeword, zerocheck round-2
/// a/b, basefold codeword ping-pong ×2 → 5 buffers; 2^(m-7)-class — witness
/// z/a/b, zerocheck tail ping-pong ×2, basefold a×2/b, rs_eq_ind ×2,
/// b_combined → 11 buffers. Release with [`clear`].
///
/// Whatever the pool holds, the five large buffers are in it in the end, and all of the
/// small ones unless it held more than 19 buffers: then a small one may have to go for each
/// buffer beyond, in favour of one with no less capacity. Nothing is evicted where there
/// is room for the set, or where the pool can supply it. Capacities are read once for each
/// buffer: a buffer keeps its own on the way out of the pool and back.
pub fn prewarm_prover(pool: &mut Pool, m: usize)
    requires
        old(pool).wf(),
        m >= 7 ==> pow2((m - 6) as nat) <= usize::MAX,
    ensures
        final(pool).wf(),
        m < 7 ==> final(pool).buffers@ == old(pool).buffers@,
        m >= 7 ==> exists|
            capacities: Seq<usize>,
            set: Seq<Vec<F128>>,
            allocated: Seq<usize>,
        | #[trigger]
            can_warm(old(pool).buffers@, capacities, set, allocated, m as nat)
                && final(pool).buffers@ == warmed(
                old(pool).buffers@,
                capacities,
                set,
                allocated,
                m as nat,
            ),
        m >= 7 ==> stays_warm(old(pool).buffers@, final(pool).buffers@, m as nat),
{
    if m < 7 {
        return;
    }
    proof {
        lemma_pow2_strictly_increases((m - 7) as nat, (m - 6) as nat);
    }
    let small: usize = pow2_usize(m - 7);
    let large: usize = pow2_usize(m - 6);
    let ghost before = pool.buffers@;
    let mut sizes: Vec<usize> = Vec::with_capacity(16);
    let mut i: usize = 0;
    while i < 16
        invariant
            i <= 16,
            large == pow2((m - 6) as nat),
            small == pow2((m - 7) as nat),
            sizes@.len() == i,
            forall|k: int| 0 <= k < i ==> #[trigger] sizes@[k] == set_sizes(m as nat)[k],
        decreases 16 - i,
    {
        sizes.push(
            if i < 5 {
                large
            } else {
                small
            },
        );
        i = i + 1;
    }
    assert(sizes@ =~= set_sizes(m as nat));
    let at_first = capacities(pool);
    let ghost caps = at_first@;
    let (bufs, left, found) = take_all_by(pool, at_first, &sizes);
    let ghost set = bufs@;
    assert(is_set(set, m as nat));
    let mut parked_sizes: Vec<usize> = Vec::with_capacity(16);
    let ghost mut allocated: Seq<usize> = Seq::empty();
    let mut k: usize = 0;
    while k < 16
        invariant
            k <= 16,
            found@.len() == 16,
            bufs@ == set,
            is_set(set, m as nat),
            parked_sizes@.len() == k,
            allocated.len() == k,
            forall|q: int| 0 <= q < k ==> #[trigger] allocated[q] >= set_sizes(m as nat)[q],
            forall|q: int|
                0 <= q < k ==> #[trigger] parked_sizes@[q] == (match found@[q] {
                    Some(c) => c,
                    None => allocated[q],
                }),
        decreases 16 - k,
    {
        let c: usize = match found[k] {
            Some(f) => f,
            None => capacity(&bufs[k]),
        };
        parked_sizes.push(c);
        proof {
            allocated = allocated.push(
                if found@[k as int] is Some {
                    set_sizes(m as nat)[k as int]
                } else {
                    c
                },
            );
        }
        k = k + 1;
    }
    assert(parked_sizes@ =~= settled(found@, allocated));
    park_by(pool, left, bufs, &parked_sizes);
    proof {
        assert(can_warm(before, caps, set, allocated, m as nat));
        lemma_warming(before, caps, set, allocated, m as nat);
    }
}

/// Release every pooled buffer.
pub fn clear(pool: &mut Pool)
    ensures
        final(pool).wf(),
        final(pool).buffers@.len() == 0,
{
    pool.buffers.clear();
}

} // verus!
