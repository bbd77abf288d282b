//! The decisions of the parallel search over a range: what a worker does
//! with each index it claims, and how the results of the workers are merged.
//! The claiming itself (a shared counter) and the threads are the caller's.
use vstd::prelude::*;
use crate::cache::Cache;
use crate::collatz::{collatz_len_max, collatz_len_max_with_cache};
use crate::indexed_value::{
    lemma_higher_bounds, lemma_rank_total, magnitude_injective, IndexedValue, Magnitude,
};
use crate::sequence::{fits, lemma_result_positive, result_of};

verus! {

/// The best length and the best peak seen so far, each with its index.
pub type Best = (IndexedValue<usize>, IndexedValue<u64>);

/// The entry that index `k` contributes to the best length.
pub open spec fn len_entry(k: usize) -> IndexedValue<usize> {
    IndexedValue { n: k, value: result_of(k as nat).0 }
}

/// The entry that index `k` contributes to the best peak.
pub open spec fn peak_entry(k: usize) -> IndexedValue<u64> {
    IndexedValue { n: k, value: result_of(k as nat).1 }
}

/// The starting point of every fold: index 0 with value 0, "no data".
pub open spec fn nothing() -> Best {
    (IndexedValue { n: 0, value: 0 }, IndexedValue { n: 0, value: 0 })
}

/// `b` after taking index `k` into account.
pub open spec fn absorbed(b: Best, k: usize) -> Best {
    (b.0.higher(len_entry(k)), b.1.higher(peak_entry(k)))
}

/// The component-wise higher of two partial results.
pub open spec fn merged(a: Best, b: Best) -> Best {
    (a.0.higher(b.0), a.1.higher(b.1))
}

/// What a worker holds after absorbing the indices of `s`, in that order.
pub open spec fn fold_claims(s: Seq<usize>) -> Best
    decreases s.len(),
{
    if s.len() == 0 {
        nothing()
    } else {
        absorbed(fold_claims(s.drop_last()), s.last())
    }
}

/// The result of workers that claimed `claims[0]`, `claims[1]`, ... and
/// were merged in that order.
pub open spec fn distributed_best(claims: Seq<Seq<usize>>) -> Best
    decreases claims.len(),
{
    if claims.len() == 0 {
        nothing()
    } else {
        merged(distributed_best(claims.drop_last()), fold_claims(claims.last()))
    }
}

/// `count` consecutive indices from `start`.
pub open spec fn span(start: usize, count: nat) -> Seq<usize> {
    Seq::new(count, |i: int| (start + i) as usize)
}

/// The indices `start..=end` in increasing order (none when `start > end`).
pub open spec fn range_seq(start: usize, end: usize) -> Seq<usize> {
    span(start, if start <= end { (end - start + 1) as nat } else { 0 })
}

/// The result of one pass over `start..=end`.
pub open spec fn range_best(start: usize, end: usize) -> Best {
    fold_claims(range_seq(start, end))
}

/// Every index of `start..=end` can be evaluated.
pub open spec fn range_fits(start: usize, end: usize) -> bool {
    forall|k: usize| start <= k <= end ==> #[trigger] fits(k as nat)
}

/// The "no data" result: index 0 with value 0 for both.
pub fn empty_best() -> (r: Best)
    ensures
        r == nothing(),
{
    (IndexedValue { n: 0, value: 0 }, IndexedValue { n: 0, value: 0 })
}

/// Evaluates index `n` (through `cache` when it has slots) and keeps, for
/// the length and for the peak, whichever of the old best and the new entry
/// ranks higher.
pub fn absorb<C: Cache>(best: Best, n: usize, cache: &C) -> (r: Best)
    requires
        fits(n as nat),
        cache.wf(),
    ensures
        r == absorbed(best, n),
{
    let (len, max) = if cache.len() > 0 {
        collatz_len_max_with_cache(n as u64, cache)
    } else {
        collatz_len_max(n as u64)
    };
    (best.0.max(IndexedValue { n, value: len }), best.1.max(IndexedValue { n, value: max }))
}

/// One turn of a worker that has just claimed index `n` from the shared
/// counter: past `end` it stops (and the claim is dropped), otherwise it
/// absorbs `n` into `best` and goes on.
pub fn claim<C: Cache>(best: &mut Best, n: usize, end: usize, cache: &C) -> (more: bool)
    requires
        n <= end ==> fits(n as nat),
        cache.wf(),
    ensures
        more == (n <= end),
        *final(best) == (if more { absorbed(*old(best), n) } else { *old(best) }),
{
    if n > end {
        false
    } else {
        *best = absorb(*best, n, cache);
        true
    }
}

/// Merges the results of two workers.
pub fn merge(a: Best, b: Best) -> (r: Best)
    ensures
        r == merged(a, b),
{
    (a.0.max(b.0), a.1.max(b.1))
}

/// One pass over `start..=end` by a single worker.
pub fn best_in_range<C: Cache>(start: usize, end: usize, cache: &C) -> (r: Best)
    requires
        range_fits(start, end),
        cache.wf(),
    ensures
        r == range_best(start, end),
{
    let mut best = empty_best();
    if start > end {
        proof {
            assert(range_seq(start, end) =~= Seq::<usize>::empty());
        }
        return best;
    }
    proof {
        assert(span(start, 0) =~= Seq::<usize>::empty());
    }
    let mut i = start;
    loop
        invariant_except_break
            best == fold_claims(span(start, (i - start) as nat)),
        invariant
            start <= i <= end,
            range_fits(start, end),
            cache.wf(),
        ensures
            best == range_best(start, end),
        decreases end - i,
    {
        best = absorb(best, i, cache);
        proof {
            let s = span(start, (i - start + 1) as nat);
            assert(s.drop_last() =~= span(start, (i - start) as nat));
            assert(best == fold_claims(s));
        }
        if i == end {
            break;
        }
        i += 1;
    }
    best
}

/// `r` is the top of `base` and the entries of the indices in `s`: it is
/// one of them, and none of them outranks it.
pub open spec fn top_of_seq<T: Magnitude>(
    r: IndexedValue<T>,
    base: IndexedValue<T>,
    entry: spec_fn(usize) -> IndexedValue<T>,
    s: Seq<usize>,
) -> bool {
    &&& (r == base || exists|j: int| 0 <= j < s.len() && r == entry(s[j]))
    &&& !base.outranks(r)
    &&& forall|j: int| 0 <= j < s.len() ==> !(#[trigger] entry(s[j])).outranks(r)
}

/// `r` is the top of `base` and the entries of all indices in `claims`.
pub open spec fn top_of_claims<T: Magnitude>(
    r: IndexedValue<T>,
    base: IndexedValue<T>,
    entry: spec_fn(usize) -> IndexedValue<T>,
    claims: Seq<Seq<usize>>,
) -> bool {
    &&& (r == base || exists|w: int, j: int|
        0 <= w < claims.len() && 0 <= j < claims[w].len() && r == entry(claims[w][j]))
    &&& !base.outranks(r)
    &&& forall|w: int, j: int|
        0 <= w < claims.len() && 0 <= j < claims[w].len() ==> !(#[trigger] entry(
            claims[w][j],
        )).outranks(r)
}

/// A worker's fold is the top of what it claimed: the start value or one
/// of the claimed entries, outranked by none of them.
pub proof fn lemma_fold_is_top(s: Seq<usize>)
    ensures
        top_of_seq(fold_claims(s).0, nothing().0, |k: usize| len_entry(k), s),
        top_of_seq(fold_claims(s).1, nothing().1, |k: usize| peak_entry(k), s),
    decreases s.len(),
{
    let le = |k: usize| len_entry(k);
    let pe = |k: usize| peak_entry(k);
    if s.len() > 0 {
        let p = s.drop_last();
        lemma_fold_is_top(p);
        let b = fold_claims(p);
        lemma_higher_bounds(b.0, len_entry(s.last()));
        lemma_higher_bounds(b.1, peak_entry(s.last()));
        assert forall|j: int| 0 <= j < p.len() implies p[j] == s[j] by {}
        let r = fold_claims(s);
        if r.0 != nothing().0 && r.0 != len_entry(s.last()) {
            let j = choose|j: int| 0 <= j < p.len() && b.0 == len_entry(p[j]);
            assert(r.0 == len_entry(s[j]));
        }
        if r.1 != nothing().1 && r.1 != peak_entry(s.last()) {
            let j = choose|j: int| 0 <= j < p.len() && b.1 == peak_entry(p[j]);
            assert(r.1 == peak_entry(s[j]));
        }
        assert forall|j: int| 0 <= j < s.len() implies !(#[trigger] le(s[j])).outranks(r.0)
            by {
            if j < p.len() {
                assert(!le(p[j]).outranks(b.0));
            }
        }
        assert forall|j: int| 0 <= j < s.len() implies !(#[trigger] pe(s[j])).outranks(r.1)
            by {
            if j < p.len() {
                assert(!pe(p[j]).outranks(b.1));
            }
        }
    }
}

/// Merging the workers in turn gives the top of everything they claimed.
proof fn lemma_distributed_is_top(claims: Seq<Seq<usize>>)
    ensures
        top_of_claims(distributed_best(claims).0, nothing().0, |k: usize| len_entry(k), claims),
        top_of_claims(distributed_best(claims).1, nothing().1, |k: usize| peak_entry(k), claims),
    decreases claims.len(),
{
    let le = |k: usize| len_entry(k);
    let pe = |k: usize| peak_entry(k);
    if claims.len() > 0 {
        let p = claims.drop_last();
        let last = claims.last();
        let w_last = claims.len() - 1;
        lemma_distributed_is_top(p);
        lemma_fold_is_top(last);
        let a = distributed_best(p);
        let f = fold_claims(last);
        lemma_higher_bounds(a.0, f.0);
        lemma_higher_bounds(a.1, f.1);
        let r = distributed_best(claims);
        assert forall|w: int| 0 <= w < p.len() implies p[w] == claims[w] by {}
        if r.0 != nothing().0 {
            if r.0 == a.0 {
                let (w, j) = choose|w: int, j: int|
                    0 <= w < p.len() && 0 <= j < p[w].len() && a.0 == len_entry(p[w][j]);
                assert(r.0 == len_entry(claims[w][j]));
            } else {
                let j = choose|j: int| 0 <= j < last.len() && f.0 == len_entry(last[j]);
                assert(r.0 == len_entry(claims[w_last][j]));
            }
        }
        if r.1 != nothing().1 {
            if r.1 == a.1 {
                let (w, j) = choose|w: int, j: int|
                    0 <= w < p.len() && 0 <= j < p[w].len() && a.1 == peak_entry(p[w][j]);
                assert(r.1 == peak_entry(claims[w][j]));
            } else {
                let j = choose|j: int| 0 <= j < last.len() && f.1 == peak_entry(last[j]);
                assert(r.1 == peak_entry(claims[w_last][j]));
            }
        }
        assert forall|w: int, j: int| 0 <= w < claims.len() && 0 <= j < claims[w].len() implies !(
        #[trigger] le(claims[w][j])).outranks(r.0) by {
            if w < p.len() {
                assert(!le(p[w][j]).outranks(a.0));
            } else {
                assert(!le(last[j]).outranks(f.0));
            }
        }
        assert forall|w: int, j: int| 0 <= w < claims.len() && 0 <= j < claims[w].len() implies !(
        #[trigger] pe(claims[w][j])).outranks(r.1) by {
            if w < p.len() {
                assert(!pe(p[w][j]).outranks(a.1));
            } else {
                assert(!pe(last[j]).outranks(f.1));
            }
        }
    }
}

/// Some worker claimed index `k`.
pub open spec fn claimed(claims: Seq<Seq<usize>>, k: usize) -> bool {
    exists|w: int, j: int| 0 <= w < claims.len() && 0 <= j < claims[w].len() && claims[w][j] == k
}

/// Every index claimed lies in `start..=end`, and every index of it is
/// claimed at least once.
pub open spec fn covers(claims: Seq<Seq<usize>>, start: usize, end: usize) -> bool {
    &&& forall|w: int, j: int|
        0 <= w < claims.len() && 0 <= j < claims[w].len() ==> start <= #[trigger] claims[w][j] <= end
    &&& forall|k: usize| start <= k <= end ==> #[trigger] claimed(claims, k)
}

/// The top over the claims and the top over the range they cover agree.
proof fn lemma_same_top<T: Magnitude>(
    r1: IndexedValue<T>,
    r2: IndexedValue<T>,
    base: IndexedValue<T>,
    entry: spec_fn(usize) -> IndexedValue<T>,
    claims: Seq<Seq<usize>>,
    start: usize,
    end: usize,
)
    requires
        magnitude_injective::<T>(),
        covers(claims, start, end),
        top_of_claims(r1, base, entry, claims),
        top_of_seq(r2, base, entry, range_seq(start, end)),
    ensures
        r1 == r2,
{
    let rs = range_seq(start, end);
    if r1 != base {
        let (w, j) = choose|w: int, j: int|
            0 <= w < claims.len() && 0 <= j < claims[w].len() && r1 == entry(claims[w][j]);
        let k = claims[w][j];
        assert(rs[k - start] == k);
        assert(!entry(rs[k - start]).outranks(r2));
    }
    if r2 != base {
        let j = choose|j: int| 0 <= j < rs.len() && r2 == entry(rs[j]);
        let k = rs[j];
        assert(claimed(claims, k));
        let (w, i) = choose|w: int, i: int|
            0 <= w < claims.len() && 0 <= i < claims[w].len() && claims[w][i] == k;
        assert(!entry(claims[w][i]).outranks(r1));
    }
    lemma_rank_total(r1, r2);
}

/// One pass over a non-empty range finds, for the length and for the peak,
/// the largest value over the range, and among the indices that reach it
/// the smallest.
pub proof fn lemma_range_best_is_largest(start: usize, end: usize)
    requires
        start <= end,
        range_fits(start, end),
    ensures
        ({
            let (len, peak) = range_best(start, end);
            &&& start <= len.n <= end
            &&& len.value == result_of(len.n as nat).0
            &&& forall|k: usize| start <= k <= end ==> #[trigger] result_of(k as nat).0 <= len.value
            &&& forall|k: usize|
                start <= k <= end && #[trigger] result_of(k as nat).0 == len.value ==> len.n <= k
            &&& start <= peak.n <= end
            &&& peak.value == result_of(peak.n as nat).1
            &&& forall|k: usize| start <= k <= end ==> #[trigger] result_of(k as nat).1 <= peak.value
            &&& forall|k: usize|
                start <= k <= end && #[trigger] result_of(k as nat).1 == peak.value ==> peak.n <= k
        }),
{
    let le = |k: usize| len_entry(k);
    let pe = |k: usize| peak_entry(k);
    let rs = range_seq(start, end);
    lemma_fold_is_top(rs);
    let r = range_best(start, end);
    assert(rs[0] == start);
    assert(fits(start as nat));
    lemma_result_positive(start as nat);
    assert(!le(rs[0]).outranks(r.0));
    assert(!pe(rs[0]).outranks(r.1));
    let j = choose|j: int| 0 <= j < rs.len() && r.0 == le(rs[j]);
    let i = choose|i: int| 0 <= i < rs.len() && r.1 == pe(rs[i]);
    assert forall|k: usize| start <= k <= end implies #[trigger] result_of(k as nat).0 <= r.0.value
        && (result_of(k as nat).0 == r.0.value ==> r.0.n <= k) by {
        assert(rs[k - start] == k);
        assert(!le(rs[k - start]).outranks(r.0));
    }
    assert forall|k: usize| start <= k <= end implies #[trigger] result_of(k as nat).1 <= r.1.value
        && (result_of(k as nat).1 == r.1.value ==> r.1.n <= k) by {
        assert(rs[k - start] == k);
        assert(!pe(rs[k - start]).outranks(r.1));
    }
}

/// However the indices of `start..=end` are shared out among workers (each
/// claiming its own in any order, an index possibly claimed twice) and in
/// whatever order the workers are merged, the result is that of one pass
/// over the range: the same winning index and value for the best length
/// and for the best peak.
pub proof fn lemma_distribution_irrelevant(start: usize, end: usize, claims: Seq<Seq<usize>>)
    requires
        covers(claims, start, end),
    ensures
        distributed_best(claims) == range_best(start, end),
{
    lemma_distributed_is_top(claims);
    lemma_fold_is_top(range_seq(start, end));
    let d = distributed_best(claims);
    let r = range_best(start, end);
    lemma_same_top(d.0, r.0, nothing().0, |k: usize| len_entry(k), claims, start, end);
    lemma_same_top(d.1, r.1, nothing().1, |k: usize| peak_entry(k), claims, start, end);
}

/// What the workers drew from a shared fetch-and-increment counter that
/// started at `start` and was incremented `m` times: `fetched[w]` lists what
/// worker `w` drew, in order. Every value of `start..start + m` was drawn
/// exactly once; each worker went on while its draws stayed within `end`
/// and stopped at its first draw past `end`.
pub open spec fn counter_draws(fetched: Seq<Seq<usize>>, start: usize, end: usize, m: nat) -> bool {
    &&& fetched.len() >= 1
    &&& forall|w: int, j: int|
        0 <= w < fetched.len() && 0 <= j < fetched[w].len() ==> start <= #[trigger] fetched[w][j]
            < start + m
    &&& forall|k: usize| start <= k < start + m ==> #[trigger] claimed(fetched, k)
    &&& forall|w1: int, j1: int, w2: int, j2: int|
        0 <= w1 < fetched.len() && 0 <= j1 < fetched[w1].len() && 0 <= w2 < fetched.len() && 0
            <= j2 < fetched[w2].len() && #[trigger] fetched[w1][j1] == #[trigger] fetched[w2][j2]
            ==> w1 == w2 && j1 == j2
    &&& forall|w: int|
        0 <= w < fetched.len() ==> (#[trigger] fetched[w]).len() >= 1 && fetched[w].last() > end
    &&& forall|w: int, j: int|
        0 <= w < fetched.len() && 0 <= j < fetched[w].len() - 1 ==> #[trigger] fetched[w][j] <= end
}

/// The indices each worker absorbed: its draws without the last one, which
/// `claim` dropped.
pub open spec fn absorbed_claims(fetched: Seq<Seq<usize>>) -> Seq<Seq<usize>> {
    fetched.map_values(|s: Seq<usize>| s.drop_last())
}

/// Work coverage: when workers draw their indices from one shared counter
/// started at `start` and each stops at its first draw past `end`, every
/// index of `start..=end` is absorbed by exactly one worker call, nothing
/// outside it is absorbed, and the merged result is that of one pass.
pub proof fn lemma_counter_covers_range(
    fetched: Seq<Seq<usize>>,
    start: usize,
    end: usize,
    m: nat,
)
    requires
        counter_draws(fetched, start, end, m),
    ensures
        covers(absorbed_claims(fetched), start, end),
        forall|w1: int, j1: int, w2: int, j2: int|
            0 <= w1 < fetched.len() && 0 <= j1 < absorbed_claims(fetched)[w1].len() && 0 <= w2
                < fetched.len() && 0 <= j2 < absorbed_claims(fetched)[w2].len()
                && #[trigger] absorbed_claims(fetched)[w1][j1] == #[trigger] absorbed_claims(
                fetched,
            )[w2][j2] ==> w1 == w2 && j1 == j2,
        distributed_best(absorbed_claims(fetched)) == range_best(start, end),
{
    let a = absorbed_claims(fetched);
    assert forall|w: int, j: int| 0 <= w < a.len() && 0 <= j < a[w].len() implies a[w][j]
        == fetched[w][j] && j < fetched[w].len() - 1 by {
        assert(a[w] == fetched[w].drop_last());
    }
    assert forall|w: int, j: int| 0 <= w < a.len() && 0 <= j < a[w].len() implies start
        <= #[trigger] a[w][j] <= end by {
        assert(a[w][j] == fetched[w][j]);
        assert(fetched[w][j] <= end);
    }
    let w0 = 0int;
    assert(fetched[w0].len() >= 1);
    let last = fetched[w0][fetched[w0].len() - 1];
    assert(last < start + m);
    assert forall|k: usize| start <= k <= end implies #[trigger] claimed(a, k) by {
        assert(claimed(fetched, k));
        let (w, j) = choose|w: int, j: int|
            0 <= w < fetched.len() && 0 <= j < fetched[w].len() && fetched[w][j] == k;
        assert(fetched[w].len() >= 1 && fetched[w].last() > end);
        assert(j < fetched[w].len() - 1);
        assert(a[w] == fetched[w].drop_last());
        assert(a[w][j] == k);
    }
    lemma_distribution_irrelevant(start, end, a);
}

} // verus!
