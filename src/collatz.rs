//! Evaluating the sequence of one starting number, with or without a memo
//! table, and folding the results of a range into the best length and the
//! best peak.
use vstd::prelude::*;
use crate::cache::{absent, Cache};
use crate::indexed_value::IndexedValue;
use crate::sequence::{
    fits, length, lemma_fits_step, lemma_orbit_one, lemma_orbit_start, lemma_orbit_step, next,
    orbit, result_of,
};

verus! {

/// The values that follow `n` down to 1, and then 1 once more: the values
/// that `collatz` appends, in order.
pub open spec fn collatz_trail(n: nat) -> Seq<nat> {
    orbit(n).drop_first().push(1)
}

/// A sequence of naturals as `u64`s.
pub open spec fn to_u64s(s: Seq<nat>) -> Seq<u64> {
    s.map_values(|x: nat| x as u64)
}

proof fn lemma_trail_step(n: nat)
    requires
        fits(n),
        n != 1,
    ensures
        to_u64s(collatz_trail(n)) == seq![next(n) as u64] + to_u64s(collatz_trail(next(n))),
{
    lemma_orbit_step(n);
    lemma_orbit_start(next(n));
    let m = next(n);
    assert(orbit(n).drop_first() =~= orbit(m));
    assert(orbit(m) =~= seq![m] + orbit(m).drop_first());
    assert(collatz_trail(n) =~= seq![m] + collatz_trail(m));
    assert(to_u64s(collatz_trail(n)) =~= seq![m as u64] + to_u64s(collatz_trail(m)));
}

/// Appends to `v` every value after `n` on its way to 1, and then 1 (so `n`
/// itself is not appended and the final 1 is appended twice, unless `n` is 1).
pub fn collatz(n: u64, v: Vec<u64>) -> (r: Vec<u64>)
    requires
        fits(n as nat),
    ensures
        r@ == v@ + to_u64s(collatz_trail(n as nat)),
    decreases length(n as nat),
{
    let mut v = v;
    if n == 1 {
        proof {
            lemma_orbit_one();
            assert(collatz_trail(1) =~= seq![1nat]);
            assert(to_u64s(collatz_trail(1)) =~= seq![1u64]);
        }
        v.push(n);
        v
    } else {
        proof {
            lemma_fits_step(n as nat);
            lemma_trail_step(n as nat);
        }
        let next_n = if n % 2 == 0 { n / 2 } else { 3 * n + 1 };
        let ghost before = v@;
        v.push(next_n);
        let r = collatz(next_n, v);
        proof {
            assert(r@ =~= before + to_u64s(collatz_trail(n as nat)));
        }
        r
    }
}

/// `(length, peak)` of the sequence from `n`, computed without a memo table.
pub fn collatz_len_max(n: u64) -> (r: (usize, u64))
    requires
        fits(n as nat),
    ensures
        r == result_of(n as nat),
    decreases length(n as nat),
{
    if n == 1 {
        proof {
            lemma_orbit_one();
        }
        (1, 1)
    } else {
        proof {
            lemma_fits_step(n as nat);
        }
        let next_n = if n % 2 == 0 { n / 2 } else { 3 * n + 1 };
        let r = collatz_len_max(next_n);
        (r.0 + 1, if n >= r.1 { n } else { r.1 })
    }
}

/// `(length, peak)` of the sequence from `n`, answered from `cache` when it
/// holds the result and stored into it otherwise (intermediate numbers too).
pub fn collatz_len_max_with_cache<C: Cache>(n: u64, cache: &C) -> (r: (usize, u64))
    requires
        fits(n as nat),
        cache.wf(),
    ensures
        r == result_of(n as nat),
    decreases length(n as nat),
{
    if n == 1 {
        proof {
            lemma_orbit_one();
        }
        (1, 1)
    } else {
        proof {
            lemma_fits_step(n as nat);
        }
        let addressable = n <= usize::MAX as u64;
        if addressable {
            let r = cache.get(n as usize);
            if r.0 > 0 {
                return r;
            }
        }
        let next_n = if n % 2 == 0 { n / 2 } else { 3 * n + 1 };
        let r = collatz_len_max_with_cache(next_n, cache);
        let result = (r.0 + 1, if n >= r.1 { n } else { r.1 });
        if addressable {
            cache.set(n as usize, result);
        }
        result
    }
}

} // verus!
