//! What the buffer pool promises whatever the capacities of its buffers.
use vstd::arithmetic::power2::{lemma_pow2_pos, lemma_pow2_strictly_increases, pow2};
use vstd::prelude::*;
use crate::field::F128;
use crate::scratch::{
    can_have_capacities, can_warm, count, fit, holds, is_best_fit, is_set, is_smallest, is_warm,
    is_zeroed, parked, set_sizes, settled, stays_warm, taken, warmed, without, zeros, Shelf,
    MAX_POOLED,
};

verus! {

// ---------------------------------------------------------------------------
// Which buffer is taken or evicted
// ---------------------------------------------------------------------------

/// There is one best fit.
pub proof fn lemma_best_fit_is_unique(capacities: Seq<usize>, n: usize, i: int)
    requires
        is_best_fit(capacities, n, i),
    ensures
        fit(capacities, n) == Some(i),
{
    let j = choose|j: int| is_best_fit(capacities, n, j);
    assert(is_best_fit(capacities, n, j));
    assert(capacities[i] <= capacities[j] && capacities[j] <= capacities[i]);
}

/// There is one first smallest capacity.
pub proof fn lemma_smallest_is_unique(capacities: Seq<usize>, i: int)
    requires
        is_smallest(capacities, i),
    ensures
        (choose|j: int| is_smallest(capacities, j)) == i,
{
    let j = choose|j: int| is_smallest(capacities, j);
    assert(is_smallest(capacities, j));
    assert(capacities[i] <= capacities[j] && capacities[j] <= capacities[i]);
}

/// There is a best fit wherever a capacity is sufficient.
proof fn lemma_fit(capacities: Seq<usize>, n: usize)
    ensures
        match fit(capacities, n) {
            None => forall|j: int| 0 <= j < capacities.len() ==> #[trigger] capacities[j] < n,
            Some(i) => is_best_fit(capacities, n, i),
        },
    decreases capacities.len(),
{
    if capacities.len() > 0 {
        let last = capacities.len() - 1;
        let init = capacities.drop_last();
        lemma_fit(init, n);
        assert forall|j: int| 0 <= j < last implies #[trigger] capacities[j] == init[j] by {}
        match fit(init, n) {
            None => {
                if capacities[last] >= n {
                    assert(is_best_fit(capacities, n, last));
                } else {
                    assert forall|j: int| 0 <= j < capacities.len() implies #[trigger] capacities[j]
                        < n by {
                        if j < last {
                            assert(init[j] < n);
                        }
                    }
                }
            },
            Some(i) => {
                if capacities[last] >= n && capacities[last] < capacities[i] {
                    assert forall|j: int|
                        0 <= j < last && #[trigger] capacities[j] >= n implies capacities[last]
                        < capacities[j] by {
                        assert(init[i] <= init[j]);
                    }
                    assert(is_best_fit(capacities, n, last));
                } else {
                    assert forall|j: int|
                        0 <= j < capacities.len() && #[trigger] capacities[j]
                            >= n implies capacities[i] <= capacities[j] by {
                        if j < last {
                            assert(init[i] <= init[j]);
                        }
                    }
                    assert forall|j: int|
                        0 <= j < i && #[trigger] capacities[j] >= n implies capacities[i]
                        < capacities[j] by {
                        assert(init[i] < init[j]);
                    }
                    assert(is_best_fit(capacities, n, i));
                }
            },
        }
    }
}

/// There is a smallest capacity wherever there is one.
proof fn lemma_smallest_exists(capacities: Seq<usize>) -> (i: int)
    requires
        capacities.len() > 0,
    ensures
        is_smallest(capacities, i),
    decreases capacities.len(),
{
    let last = capacities.len() - 1;
    if last == 0 {
        assert(is_smallest(capacities, 0));
        0
    } else {
        let init = capacities.drop_last();
        let i = lemma_smallest_exists(init);
        assert forall|j: int| 0 <= j < last implies capacities[i] <= #[trigger] capacities[j] by {
            assert(init[i] <= init[j]);
        }
        assert forall|j: int| 0 <= j < i implies capacities[i] < #[trigger] capacities[j] by {
            assert(init[i] < init[j]);
        }
        if capacities[last] < capacities[i] {
            last
        } else {
            i
        }
    }
}

/// A buffer is found wherever one is large enough, and it is the first of the smallest of
/// those.
pub proof fn lemma_fit_is_tight(capacities: Seq<usize>, n: usize)
    ensures
        match fit(capacities, n) {
            None => forall|j: int| 0 <= j < capacities.len() ==> #[trigger] capacities[j] < n,
            Some(i) => {
                &&& 0 <= i < capacities.len()
                &&& n <= capacities[i]
                &&& forall|j: int|
                    0 <= j < capacities.len() && n <= #[trigger] capacities[j] ==> {
                        ||| capacities[i] < capacities[j]
                        ||| capacities[i] == capacities[j] && i <= j
                    }
            },
        },
{
    lemma_fit(capacities, n);
}

/// A shelf with room keeps what is returned to it; a full one gives up the first of the
/// smallest buffers, be it the one that is returned, and the last one takes its place.
/// Buffers without capacity are not kept.
pub proof fn lemma_returned_buffer_is_kept(shelf: Shelf, v: Vec<F128>, capacity: usize)
    requires
        shelf.buffers.len() == shelf.capacities.len(),
        shelf.buffers.len() <= 24,
    ensures
        ({
            let caps = shelf.capacities.push(capacity);
            let after = shelf.with(v, capacity);
            &&& capacity == 0 ==> after == shelf
            &&& capacity > 0 && shelf.buffers.len() < 24 ==> after.buffers == shelf.buffers.push(v)
                && after.capacities == caps
            &&& capacity > 0 && shelf.buffers.len() == 24 ==> exists|i: int|
                {
                    &&& 0 <= i <= 24
                    &&& forall|j: int|
                        0 <= j <= 24 ==> {
                            ||| caps[i] < #[trigger] caps[j]
                            ||| caps[i] == caps[j] && i <= j
                        }
                    &&& after.buffers == #[trigger] shelf.buffers.push(v).update(
                        i,
                        v,
                    ).drop_last()
                    &&& after.capacities == caps.update(i, capacity).drop_last()
                }
        }),
{
    let caps = shelf.capacities.push(capacity);
    if capacity > 0 && shelf.buffers.len() == 24 {
        let k = lemma_smallest_exists(caps);
        lemma_smallest_is_unique(caps, k);
        let after = shelf.with(v, capacity);
        assert(after.buffers == shelf.buffers.push(v).update(k, v).drop_last());
    }
}

// ---------------------------------------------------------------------------
// Counting
// ---------------------------------------------------------------------------

proof fn lemma_count_push<T>(s: Seq<T>, x: T, p: spec_fn(T) -> bool)
    ensures
        count(s.push(x), p) == count(s, p) + if p(x) {
            1nat
        } else {
            0
        },
{
    assert(s.push(x).drop_last() =~= s);
}

proof fn lemma_count_update<T>(s: Seq<T>, i: int, x: T, p: spec_fn(T) -> bool)
    requires
        0 <= i < s.len(),
    ensures
        count(s.update(i, x), p) + (if p(s[i]) {
            1nat
        } else {
            0
        }) == count(s, p) + if p(x) {
            1nat
        } else {
            0
        },
    decreases s.len(),
{
    if i == s.len() - 1 {
        assert(s.update(i, x).drop_last() =~= s.drop_last());
    } else {
        assert(s.update(i, x).drop_last() =~= s.drop_last().update(i, x));
        lemma_count_update(s.drop_last(), i, x, p);
    }
}

proof fn lemma_count_without<T>(s: Seq<T>, i: int, p: spec_fn(T) -> bool)
    requires
        0 <= i < s.len(),
    ensures
        count(without(s, i), p) + (if p(s[i]) {
            1nat
        } else {
            0
        }) == count(s, p),
{
    lemma_count_update(s, i, s.last(), p);
}

/// What is counted is there.
proof fn lemma_counted<T>(s: Seq<T>, p: spec_fn(T) -> bool) -> (i: int)
    requires
        count(s, p) > 0,
    ensures
        0 <= i < s.len(),
        p(s[i]),
    decreases s.len(),
{
    if p(s.last()) {
        s.len() - 1
    } else {
        lemma_counted(s.drop_last(), p)
    }
}

proof fn lemma_count_all<T>(s: Seq<T>, p: spec_fn(T) -> bool)
    requires
        forall|i: int| 0 <= i < s.len() ==> p(#[trigger] s[i]),
    ensures
        count(s, p) == s.len(),
    decreases s.len(),
{
    if s.len() > 0 {
        lemma_count_all(s.drop_last(), p);
    }
}

/// The capacities of at least `n`.
spec fn at_least(n: nat) -> spec_fn(usize) -> bool {
    |c: usize| c >= n
}

/// The capacities below `n`.
spec fn below(n: nat) -> spec_fn(usize) -> bool {
    |c: usize| c < n
}

/// A buffer that holds enough has capacity enough.
proof fn lemma_holders_have_capacity(buffers: Seq<Vec<F128>>, capacities: Seq<usize>, n: nat)
    requires
        can_have_capacities(buffers, capacities),
    ensures
        count(buffers, holds(n)) <= count(capacities, at_least(n)),
    decreases buffers.len(),
{
    if buffers.len() > 0 {
        let (b, c) = (buffers.drop_last(), capacities.drop_last());
        assert forall|j: int| 0 <= j < b.len() implies #[trigger] c[j] >= b[j]@.len() by {
            assert(capacities[j] >= buffers[j]@.len());
        }
        lemma_holders_have_capacity(b, c, n);
        assert(capacities[buffers.len() - 1] >= buffers.last()@.len());
    }
}

// ---------------------------------------------------------------------------
// Taking
// ---------------------------------------------------------------------------

/// Shelves have a capacity for each buffer.
pub open spec fn is_shelf(shelf: Shelf) -> bool {
    can_have_capacities(shelf.buffers, shelf.capacities)
}

proof fn lemma_shelf_without(shelf: Shelf, i: int)
    requires
        is_shelf(shelf),
        0 <= i < shelf.buffers.len(),
    ensures
        is_shelf(shelf.without(i)),
        shelf.without(i).buffers.len() == shelf.buffers.len() - 1,
        forall|j: int|
            0 <= j < shelf.buffers.len() - 1 ==> shelf.buffers.contains(
                #[trigger] shelf.without(i).buffers[j],
            ),
        forall|j: int|
            0 <= j < shelf.buffers.len() - 1 ==> shelf.capacities.contains(
                #[trigger] shelf.without(i).capacities[j],
            ),
{
    let w = shelf.without(i);
    let last = shelf.buffers.len() - 1;
    assert forall|j: int| 0 <= j < last implies #[trigger] w.capacities[j] >= w.buffers[j]@.len()
        && shelf.buffers.contains(w.buffers[j]) && shelf.capacities.contains(w.capacities[j]) by {
        let from = if j == i {
            last
        } else {
            j
        };
        assert(w.capacities[j] == shelf.capacities[from]);
        assert(w.buffers[j] == shelf.buffers[from]);
    }
    assert forall|j: int| 0 <= j < last implies shelf.buffers.contains(
        #[trigger] w.buffers[j],
    ) by {
        assert(w.capacities[j] >= w.buffers[j]@.len());
    }
}

/// The number of buffers that were found.
spec fn is_found() -> spec_fn(Option<usize>) -> bool {
    |o: Option<usize>| o is Some
}

/// A take removes the buffer that it finds, and finds none only where no capacity suffices.
proof fn lemma_taken(shelf: Shelf, sizes: Seq<usize>, t: nat)
    requires
        is_shelf(shelf),
    ensures
        ({
            let r = taken(shelf, sizes, t);
            &&& is_shelf(r.shelf)
            &&& r.found.len() == t
            &&& r.shelf.buffers.len() + count(r.found, is_found()) == shelf.buffers.len()
            &&& forall|j: int|
                0 <= j < r.shelf.buffers.len() ==> shelf.buffers.contains(
                    #[trigger] r.shelf.buffers[j],
                )
            &&& forall|k: int|
                0 <= k < t && #[trigger] r.found[k] is Some ==> r.found[k]->Some_0 >= sizes[k]
            &&& forall|k: int, j: int|
                0 <= k < t && r.found[k] is None && 0 <= j < r.shelf.capacities.len()
                    ==> #[trigger] r.shelf.capacities[j] < #[trigger] sizes[k]
        }),
    decreases t,
{
    if t > 0 {
        lemma_taken(shelf, sizes, (t - 1) as nat);
        let p = taken(shelf, sizes, (t - 1) as nat);
        let r = taken(shelf, sizes, t);
        let n = sizes[t - 1];
        lemma_fit(p.shelf.capacities, n);
        match fit(p.shelf.capacities, n) {
            None => {
                lemma_count_push(p.found, None, is_found());
            },
            Some(i) => {
                lemma_count_push(p.found, Some(p.shelf.capacities[i]), is_found());
                lemma_shelf_without(p.shelf, i);
                assert forall|j: int| 0 <= j < r.shelf.buffers.len() implies shelf.buffers.contains(
                    #[trigger] r.shelf.buffers[j],
                ) by {
                    assert(p.shelf.buffers.contains(p.shelf.without(i).buffers[j]));
                }
                assert forall|k: int, j: int|
                    0 <= k < t && r.found[k] is None && 0 <= j
                        < r.shelf.capacities.len() implies #[trigger] r.shelf.capacities[j]
                    < #[trigger] sizes[k] by {
                    assert(p.found[k] is None);
                    assert(p.shelf.capacities.contains(p.shelf.without(i).capacities[j]));
                }
            },
        }
    }
}

/// As long as there are more buffers of sufficient capacity than takes, each take finds one.
proof fn lemma_capacity_left(shelf: Shelf, sizes: Seq<usize>, t: nat, n: nat)
    requires
        is_shelf(shelf),
    ensures
        count(taken(shelf, sizes, t).shelf.capacities, at_least(n)) + t >= count(
            shelf.capacities,
            at_least(n),
        ),
    decreases t,
{
    if t > 0 {
        lemma_capacity_left(shelf, sizes, (t - 1) as nat, n);
        lemma_taken(shelf, sizes, (t - 1) as nat);
        let p = taken(shelf, sizes, (t - 1) as nat);
        lemma_fit(p.shelf.capacities, sizes[t - 1]);
        match fit(p.shelf.capacities, sizes[t - 1]) {
            None => {},
            Some(i) => {
                lemma_count_without(p.shelf.capacities, i, at_least(n));
            },
        }
    }
}

/// A warm pool supplies the set.
proof fn lemma_warm_supplies(shelf: Shelf, m: nat, t: nat)
    requires
        is_shelf(shelf),
        is_warm(shelf.buffers, m),
        m >= 7,
        pow2((m - 6) as nat) <= usize::MAX,
        t <= 16,
    ensures
        forall|k: int| 0 <= k < t ==> #[trigger] taken(shelf, set_sizes(m), t).found[k] is Some,
    decreases t,
{
    if t > 0 {
        let sizes = set_sizes(m);
        lemma_pow2_strictly_increases((m - 7) as nat, (m - 6) as nat);
        lemma_warm_supplies(shelf, m, (t - 1) as nat);
        lemma_taken(shelf, sizes, (t - 1) as nat);
        let p = taken(shelf, sizes, (t - 1) as nat);
        let n = sizes[t - 1] as nat;
        lemma_capacity_left(shelf, sizes, (t - 1) as nat, n);
        lemma_holders_have_capacity(shelf.buffers, shelf.capacities, n);
        let j = lemma_counted(p.shelf.capacities, at_least(n));
        lemma_fit(p.shelf.capacities, sizes[t - 1]);
        assert(p.shelf.capacities[j] >= sizes[t - 1]);
    }
}

// ---------------------------------------------------------------------------
// Parking
// ---------------------------------------------------------------------------

/// The buffers have the given capacities, and none is without.
spec fn can_park(buffers: Seq<Vec<F128>>, capacities: Seq<usize>) -> bool {
    &&& can_have_capacities(buffers, capacities)
    &&& forall|k: int| 0 <= k < capacities.len() ==> #[trigger] capacities[k] > 0
}

/// The buffers evicted once `t` buffers are returned to a pool of `n`.
spec fn evicted(n: nat, t: nat) -> nat {
    if n + t <= MAX_POOLED {
        0
    } else {
        (n + t - MAX_POOLED) as nat
    }
}

/// Parked buffers are pushed as long as there is room.
proof fn lemma_parked(shelf: Shelf, buffers: Seq<Vec<F128>>, capacities: Seq<usize>, t: nat)
    requires
        is_shelf(shelf),
        shelf.buffers.len() <= MAX_POOLED,
        can_park(buffers, capacities),
        t <= buffers.len(),
    ensures
        ({
            let p = parked(shelf, buffers, capacities, t);
            &&& is_shelf(p)
            &&& p.buffers.len() + evicted(shelf.buffers.len(), t) == shelf.buffers.len() + t
            &&& shelf.buffers.len() + t <= MAX_POOLED ==> p.buffers == shelf.buffers
                + buffers.take(t as int)
            &&& forall|j: int|
                0 <= j < p.buffers.len() ==> {
                    ||| shelf.buffers.contains(#[trigger] p.buffers[j])
                    ||| buffers.contains(p.buffers[j])
                }
        }),
    decreases t,
{
    if t == 0 {
        assert(shelf.buffers + buffers.take(0) =~= shelf.buffers);
    } else {
        lemma_parked(shelf, buffers, capacities, (t - 1) as nat);
        let q = parked(shelf, buffers, capacities, (t - 1) as nat);
        let p = parked(shelf, buffers, capacities, t);
        let (v, c) = (buffers[t - 1], capacities[t - 1]);
        let pushed = Shelf { buffers: q.buffers.push(v), capacities: q.capacities.push(c) };
        assert(capacities[t - 1] >= buffers[t - 1]@.len());
        assert(is_shelf(pushed));
        assert forall|j: int| 0 <= j < pushed.buffers.len() implies {
            ||| shelf.buffers.contains(#[trigger] pushed.buffers[j])
            ||| buffers.contains(pushed.buffers[j])
        } by {
            if j < q.buffers.len() {
                assert(pushed.buffers[j] == q.buffers[j]);
            } else {
                assert(buffers.contains(buffers[t - 1]));
            }
        }
        if pushed.buffers.len() <= MAX_POOLED {
            if shelf.buffers.len() + t <= MAX_POOLED {
                assert(p.buffers =~= shelf.buffers + buffers.take(t as int));
            }
        } else {
            let i = lemma_smallest_exists(pushed.capacities);
            lemma_smallest_is_unique(pushed.capacities, i);
            lemma_shelf_without(pushed, i);
            assert forall|j: int| 0 <= j < p.buffers.len() implies {
                ||| shelf.buffers.contains(#[trigger] p.buffers[j])
                ||| buffers.contains(p.buffers[j])
            } by {
                assert(pushed.buffers.contains(pushed.without(i).buffers[j]));
                let from = pushed.buffers.index_of(p.buffers[j]);
                assert(pushed.buffers[from] == p.buffers[j]);
            }
        }
    }
}

/// Where all capacities of the pool are below `n`, no buffer of `n` zeros or more is
/// evicted, and of shorter ones no more than are evicted at all.
proof fn lemma_parked_stay(
    shelf: Shelf,
    buffers: Seq<Vec<F128>>,
    capacities: Seq<usize>,
    n: nat,
    l: nat,
    t: nat,
)
    requires
        is_shelf(shelf),
        shelf.buffers.len() <= MAX_POOLED,
        can_park(buffers, capacities),
        t <= buffers.len() <= MAX_POOLED,
        forall|j: int| 0 <= j < shelf.capacities.len() ==> #[trigger] shelf.capacities[j] < n,
    ensures
        ({
            let p = parked(shelf, buffers, capacities, t);
            let gone = evicted(shelf.buffers.len(), t);
            let given = count(buffers.take(t as int), is_zeroed(l));
            &&& count(p.capacities, below(n)) + gone >= shelf.buffers.len()
            &&& count(p.buffers, is_zeroed(l)) + gone >= given
            &&& l >= n ==> count(p.buffers, is_zeroed(l)) >= given
        }),
    decreases t,
{
    if t == 0 {
        lemma_count_all(shelf.capacities, below(n));
    } else {
        lemma_parked_stay(shelf, buffers, capacities, n, l, (t - 1) as nat);
        lemma_parked(shelf, buffers, capacities, (t - 1) as nat);
        let q = parked(shelf, buffers, capacities, (t - 1) as nat);
        let (v, c) = (buffers[t - 1], capacities[t - 1]);
        let pushed = Shelf { buffers: q.buffers.push(v), capacities: q.capacities.push(c) };
        assert(capacities[t - 1] >= buffers[t - 1]@.len());
        lemma_count_push(q.buffers, v, is_zeroed(l));
        lemma_count_push(q.capacities, c, below(n));
        assert(buffers.take(t as int) =~= buffers.take(t - 1).push(v));
        lemma_count_push(buffers.take(t - 1), v, is_zeroed(l));
        if pushed.buffers.len() > MAX_POOLED {
            assert(is_shelf(pushed));
            let i = lemma_smallest_exists(pushed.capacities);
            lemma_smallest_is_unique(pushed.capacities, i);
            lemma_count_without(pushed.buffers, i, is_zeroed(l));
            lemma_count_without(pushed.capacities, i, below(n));
            let j = lemma_counted(pushed.capacities, below(n));
            assert(pushed.capacities[i] <= pushed.capacities[j]);
            assert(pushed.capacities[i] >= pushed.buffers[i]@.len());
        }
    }
}

// ---------------------------------------------------------------------------
// Warming
// ---------------------------------------------------------------------------

/// The number of buffers of each class in the set.
proof fn lemma_set_counts(set: Seq<Vec<F128>>, m: nat)
    requires
        is_set(set, m),
        m >= 7,
        pow2((m - 6) as nat) <= usize::MAX,
    ensures
        count(set, is_zeroed(pow2((m - 6) as nat))) == 5,
        count(set, is_zeroed(pow2((m - 7) as nat))) == 11,
{
    assert(set =~= set.take(16));
    lemma_set_prefix(set, m, 16);
}

proof fn lemma_set_prefix(set: Seq<Vec<F128>>, m: nat, k: nat)
    requires
        is_set(set, m),
        m >= 7,
        pow2((m - 6) as nat) <= usize::MAX,
        k <= 16,
    ensures
        count(set.take(k as int), is_zeroed(pow2((m - 6) as nat))) == (if k <= 5 {
            k
        } else {
            5
        }),
        count(set.take(k as int), is_zeroed(pow2((m - 7) as nat))) == (if k <= 5 {
            0
        } else {
            (k - 5) as nat
        }),
    decreases k,
{
    lemma_pow2_strictly_increases((m - 7) as nat, (m - 6) as nat);
    let (l, s) = (pow2((m - 6) as nat), pow2((m - 7) as nat));
    if k > 0 {
        lemma_set_prefix(set, m, (k - 1) as nat);
        let v = set[k - 1];
        assert(set.take(k as int) =~= set.take(k - 1).push(v));
        lemma_count_push(set.take(k - 1), v, is_zeroed(l));
        lemma_count_push(set.take(k - 1), v, is_zeroed(s));
        assert(zeros(l).len() != zeros(s).len());
        assert(v@ == zeros(set_sizes(m)[k - 1] as nat));
    }
}

/// Warming parks the set whatever the capacities are: the large buffers always, the small
/// ones unless the pool held more than 19 buffers, and in the order of the set where
/// nothing is evicted.
pub proof fn lemma_warming(
    before: Seq<Vec<F128>>,
    capacities: Seq<usize>,
    set: Seq<Vec<F128>>,
    allocated: Seq<usize>,
    m: nat,
)
    requires
        can_warm(before, capacities, set, allocated, m),
        before.len() <= MAX_POOLED,
        m >= 7,
        pow2((m - 6) as nat) <= usize::MAX,
    ensures
        stays_warm(before, warmed(before, capacities, set, allocated, m), m),
{
    let shelf = Shelf { buffers: before, capacities };
    let sizes = set_sizes(m);
    let (l, s) = (pow2((m - 6) as nat), pow2((m - 7) as nat));
    lemma_pow2_strictly_increases((m - 7) as nat, (m - 6) as nat);
    lemma_pow2_pos((m - 7) as nat);
    lemma_taken(shelf, sizes, 16);
    let t = taken(shelf, sizes, 16);
    let parked_sizes = settled(t.found, allocated);
    assert forall|k: int| 0 <= k < 16 implies #[trigger] parked_sizes[k] >= set[k]@.len()
        && parked_sizes[k] > 0 by {
        assert(set[k]@ == zeros(sizes[k] as nat));
        assert(allocated[k] >= sizes[k]);
        if t.found[k] is Some {
            assert(t.found[k]->Some_0 >= sizes[k]);
        }
    }
    let p = parked(t.shelf, set, parked_sizes, 16);
    lemma_parked(t.shelf, set, parked_sizes, 16);
    lemma_set_counts(set, m);
    assert(set.take(16) =~= set);
    let after = p.buffers;
    let left = t.shelf.buffers.len();
    lemma_found_bounds(t.found, 16);
    assert(t.found.take(16) =~= t.found);
    assert forall|j: int| 0 <= j < after.len() implies {
        ||| before.contains(#[trigger] after[j])
        ||| after[j]@ == zeros(l)
        ||| after[j]@ == zeros(s)
    } by {
        if t.shelf.buffers.contains(after[j]) {
            let from = t.shelf.buffers.index_of(after[j]);
            assert(before.contains(t.shelf.buffers[from]));
        } else {
            let from = set.index_of(after[j]);
            assert(set[from]@ == zeros(sizes[from] as nat));
        }
    }
    if is_warm(before, m) {
        lemma_warm_supplies(shelf, m, 16);
        lemma_count_all(t.found, is_found());
    }
    if left <= 8 {
        assert(after == t.shelf.buffers + set);
        assert(after.skip(after.len() - 16) =~= set);
        lemma_count_concat(t.shelf.buffers, set, is_zeroed(l));
        lemma_count_concat(t.shelf.buffers, set, is_zeroed(s));
    } else if exists|k: int| 5 <= k < 16 && #[trigger] t.found[k] is None {
        // What is left has less capacity than any buffer of the set.
        let k = choose|k: int| 5 <= k < 16 && #[trigger] t.found[k] is None;
        assert(sizes[k] == s);
        lemma_parked_stay(t.shelf, set, parked_sizes, s, l, 16);
        lemma_parked_stay(t.shelf, set, parked_sizes, s, s, 16);
    } else {
        // Some large buffer was not found: what is left has less capacity.
        if forall|k: int| 0 <= k < 5 ==> #[trigger] t.found[k] is Some {
            assert forall|k: int| 0 <= k < 16 implies is_found()(#[trigger] t.found[k]) by {
                if k >= 5 {
                    assert(!(t.found[k] is None));
                }
            }
            lemma_count_all(t.found, is_found());
            assert(false);
        }
        let k = choose|k: int| 0 <= k < 5 && !(#[trigger] t.found[k] is Some);
        assert(sizes[k] == l);
        lemma_parked_stay(t.shelf, set, parked_sizes, l, l, 16);
        lemma_parked_stay(t.shelf, set, parked_sizes, l, s, 16);
    }
}

/// No more is found than is looked for, and all that is found after the fifth take is
/// counted.
proof fn lemma_found_bounds(found: Seq<Option<usize>>, k: nat)
    requires
        found.len() == 16,
        k <= 16,
    ensures
        count(found.take(k as int), is_found()) <= k,
        k >= 5 && (forall|q: int| 5 <= q < 16 ==> #[trigger] found[q] is Some) ==> count(
            found.take(k as int),
            is_found(),
        ) >= k - 5,
    decreases k,
{
    if k > 0 {
        lemma_found_bounds(found, (k - 1) as nat);
        assert(found.take(k as int) =~= found.take(k - 1).push(found[k - 1]));
        lemma_count_push(found.take(k - 1), found[k - 1], is_found());
    }
}

proof fn lemma_count_concat<T>(s: Seq<T>, t: Seq<T>, p: spec_fn(T) -> bool)
    ensures
        count(s + t, p) == count(s, p) + count(t, p),
    decreases t.len(),
{
    if t.len() == 0 {
        assert(s + t =~= s);
    } else {
        assert((s + t).drop_last() =~= s + t.drop_last());
        lemma_count_concat(s, t.drop_last(), p);
    }
}

} // verus!
