//! The Collatz sequence as mathematics: the step, the orbit of a starting
//! number down to 1, its length and its highest value.
use vstd::prelude::*;

verus! {

/// One Collatz step: halve an even number, map an odd one to `3n + 1`.
pub open spec fn next(n: nat) -> nat {
    if n % 2 == 0 {
        n / 2
    } else {
        3 * n + 1
    }
}

/// The values visited from `n` down to 1 (both included), if 1 is reached
/// within `fuel` steps.
pub open spec fn orbit_within(n: nat, fuel: nat) -> Option<Seq<nat>>
    decreases fuel,
{
    if n == 1 {
        Some(seq![1nat])
    } else if fuel == 0 {
        None
    } else {
        match orbit_within(next(n), (fuel - 1) as nat) {
            Some(s) => Some(seq![n] + s),
            None => None,
        }
    }
}

/// Iterating the step from `n` eventually reaches 1.
pub open spec fn reaches_one(n: nat) -> bool {
    exists|fuel: nat| #[trigger] orbit_within(n, fuel) is Some
}

/// The values visited from `n` down to 1, when 1 is reached.
pub open spec fn orbit(n: nat) -> Seq<nat> {
    orbit_within(n, choose|fuel: nat| #[trigger] orbit_within(n, fuel) is Some)->Some_0
}

/// The largest element of `s` (0 for the empty sequence).
pub open spec fn seq_max(s: Seq<nat>) -> nat
    decreases s.len(),
{
    if s.len() == 0 {
        0
    } else {
        let rest = seq_max(s.drop_first());
        if s[0] >= rest {
            s[0]
        } else {
            rest
        }
    }
}

/// Number of values in the sequence from `n` to 1, both included.
pub open spec fn length(n: nat) -> nat {
    orbit(n).len()
}

/// Highest value visited on the way from `n` to 1.
pub open spec fn peak(n: nat) -> nat {
    seq_max(orbit(n))
}

/// The sequence from `n` reaches 1 and every value on it, as well as its
/// length, fits the machine types used for results.
pub open spec fn fits(n: nat) -> bool {
    &&& reaches_one(n)
    &&& peak(n) <= u64::MAX
    &&& length(n) <= usize::MAX
}

/// The pair `(length, peak)` for `n`, in the machine types of results.
pub open spec fn result_of(n: nat) -> (usize, u64) {
    (length(n) as usize, peak(n) as u64)
}

/// Two budgets that both reach 1 describe the same orbit.
pub proof fn lemma_orbit_unique(n: nat, f1: nat, f2: nat)
    requires
        orbit_within(n, f1) is Some,
        orbit_within(n, f2) is Some,
    ensures
        orbit_within(n, f1) == orbit_within(n, f2),
    decreases f1,
{
    if n != 1 {
        lemma_orbit_unique(next(n), (f1 - 1) as nat, (f2 - 1) as nat);
    }
}

/// The orbit of 1 is the single value 1.
pub proof fn lemma_orbit_one()
    ensures
        reaches_one(1),
        orbit(1) == seq![1nat],
        length(1) == 1,
        peak(1) == 1,
{
    assert(orbit_within(1, 0) is Some);
    let s = seq![1nat];
    assert(s.drop_first() =~= Seq::<nat>::empty());
    assert(seq_max(s.drop_first()) == 0);
    assert(seq_max(s) == 1);
}

/// Away from 1, the orbit of `n` is `n` followed by the orbit of its successor.
pub proof fn lemma_orbit_step(n: nat)
    requires
        reaches_one(n),
        n != 1,
    ensures
        reaches_one(next(n)),
        orbit(n) == seq![n] + orbit(next(n)),
        length(n) == length(next(n)) + 1,
        peak(n) == if n >= peak(next(n)) { n } else { peak(next(n)) },
{
    let f = choose|fuel: nat| #[trigger] orbit_within(n, fuel) is Some;
    assert(orbit_within(n, f) is Some);
    let g = (f - 1) as nat;
    assert(orbit_within(next(n), g) is Some);
    let h = choose|fuel: nat| #[trigger] orbit_within(next(n), fuel) is Some;
    lemma_orbit_unique(next(n), g, h);
    let s = orbit(n);
    assert(s.drop_first() =~= orbit(next(n)));
}

/// Every orbit starts at its own starting number, so it is never empty and
/// its peak is at least that number.
pub proof fn lemma_orbit_start(n: nat)
    requires
        reaches_one(n),
    ensures
        length(n) >= 1,
        orbit(n)[0] == n,
        peak(n) >= n,
{
    if n == 1 {
        lemma_orbit_one();
    } else {
        lemma_orbit_step(n);
    }
}

/// 0 is its own successor, so it never reaches 1.
pub proof fn lemma_zero_never_reaches_one(fuel: nat)
    ensures
        orbit_within(0, fuel) is None,
    decreases fuel,
{
    if fuel > 0 {
        assert(next(0) == 0);
        lemma_zero_never_reaches_one((fuel - 1) as nat);
    }
}

/// A number whose sequence fits has a result of nonzero length and peak.
pub proof fn lemma_result_positive(n: nat)
    requires
        fits(n),
    ensures
        n >= 1,
        result_of(n).0 >= 1,
        result_of(n).1 >= n,
{
    lemma_orbit_start(n);
    if n == 0 {
        let f = choose|fuel: nat| #[trigger] orbit_within(n, fuel) is Some;
        lemma_zero_never_reaches_one(f);
    }
}

/// What fits for `n` fits for its successor, which itself fits in a `u64`.
pub proof fn lemma_fits_step(n: nat)
    requires
        fits(n),
        n != 1,
    ensures
        fits(next(n)),
        next(n) <= peak(n),
        length(next(n)) < length(n),
        result_of(n) == ((result_of(next(n)).0 + 1) as usize,
            if n >= result_of(next(n)).1 { n as u64 } else { result_of(next(n)).1 }),
{
    lemma_orbit_step(n);
    lemma_orbit_start(next(n));
}

} // verus!
