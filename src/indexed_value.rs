//! A value tagged with the index that produced it, ranked by value first and,
//! among equal values, with the smaller index ranked higher.
use vstd::prelude::*;

verus! {

/// Integer-like values that can be ranked by an integer magnitude.
pub trait Magnitude: Copy {
    /// The integer this value stands for.
    spec fn magnitude(&self) -> int;

    fn less_than(&self, other: &Self) -> (r: bool)
        ensures
            r == (self.magnitude() < other.magnitude()),
    ;

    fn same_as(&self, other: &Self) -> (r: bool)
        ensures
            r == (self.magnitude() == other.magnitude()),
    ;
}

impl Magnitude for usize {
    open spec fn magnitude(&self) -> int {
        *self as int
    }

    fn less_than(&self, other: &Self) -> (r: bool) {
        *self < *other
    }

    fn same_as(&self, other: &Self) -> (r: bool) {
        *self == *other
    }
}

impl Magnitude for u64 {
    open spec fn magnitude(&self) -> int {
        *self as int
    }

    fn less_than(&self, other: &Self) -> (r: bool) {
        *self < *other
    }

    fn same_as(&self, other: &Self) -> (r: bool) {
        *self == *other
    }
}

impl Magnitude for u32 {
    open spec fn magnitude(&self) -> int {
        *self as int
    }

    fn less_than(&self, other: &Self) -> (r: bool) {
        *self < *other
    }

    fn same_as(&self, other: &Self) -> (r: bool) {
        *self == *other
    }
}

impl Magnitude for i64 {
    open spec fn magnitude(&self) -> int {
        *self as int
    }

    fn less_than(&self, other: &Self) -> (r: bool) {
        *self < *other
    }

    fn same_as(&self, other: &Self) -> (r: bool) {
        *self == *other
    }
}

impl Magnitude for i32 {
    open spec fn magnitude(&self) -> int {
        *self as int
    }

    fn less_than(&self, other: &Self) -> (r: bool) {
        *self < *other
    }

    fn same_as(&self, other: &Self) -> (r: bool) {
        *self == *other
    }
}

/// A value together with the index `n` of the input that produced it.
#[derive(Clone, Copy, Debug, PartialEq, Eq)]
pub struct IndexedValue<T> {
    pub n: usize,
    pub value: T,
}

impl<T: Magnitude> IndexedValue<T> {
    /// `self` ranks strictly above `other`: a larger value, or an equal value
    /// produced by a smaller index.
    pub open spec fn outranks(self, other: Self) -> bool {
        ||| self.value.magnitude() > other.value.magnitude()
        ||| (self.value.magnitude() == other.value.magnitude() && self.n < other.n)
    }

    /// The one of the two that ranks higher; `other` when neither does.
    pub open spec fn higher(self, other: Self) -> Self {
        if self.outranks(other) {
            self
        } else {
            other
        }
    }

    /// Three-way comparison under the ranking.
    pub fn cmp(&self, other: &Self) -> (r: core::cmp::Ordering)
        ensures
            (r == core::cmp::Ordering::Greater) == self.outranks(*other),
            (r == core::cmp::Ordering::Less) == other.outranks(*self),
            (r == core::cmp::Ordering::Equal) == (self.value.magnitude()
                == other.value.magnitude() && self.n == other.n),
    {
        if !self.value.same_as(&other.value) {
            if self.value.less_than(&other.value) {
                core::cmp::Ordering::Less
            } else {
                core::cmp::Ordering::Greater
            }
        } else if other.n < self.n {
            core::cmp::Ordering::Less
        } else if other.n > self.n {
            core::cmp::Ordering::Greater
        } else {
            core::cmp::Ordering::Equal
        }
    }

    /// The higher ranked of `self` and `other`; `other` when they rank equal.
    pub fn max(self, other: Self) -> (r: Self)
        ensures
            r == self.higher(other),
    {
        match self.cmp(&other) {
            core::cmp::Ordering::Greater => self,
            _ => other,
        }
    }
}

/// Two values of `T` with the same magnitude are the same value.
pub open spec fn magnitude_injective<T: Magnitude>() -> bool {
    forall|x: T, y: T| #[trigger] x.magnitude() == #[trigger] y.magnitude() ==> x == y
}

/// Tie-break: of two entries with equal values, the one from the smaller
/// index ranks strictly higher, and `max` keeps it whichever side it is on.
pub proof fn lemma_tie_break<T: Magnitude>(a: IndexedValue<T>, b: IndexedValue<T>)
    requires
        a.value.magnitude() == b.value.magnitude(),
        a.n < b.n,
    ensures
        a.outranks(b),
        !b.outranks(a),
        a.higher(b) == a,
        b.higher(a) == a,
{
}

/// Of two entries with different values, the larger value ranks strictly
/// higher whatever the indices, and `max` keeps it whichever side it is on.
pub proof fn lemma_value_first<T: Magnitude>(a: IndexedValue<T>, b: IndexedValue<T>)
    requires
        a.value.magnitude() > b.value.magnitude(),
    ensures
        a.outranks(b),
        !b.outranks(a),
        a.higher(b) == a,
        b.higher(a) == a,
{
}

/// For values ranked by an injective magnitude, two entries with different
/// values rank by value alone, whatever their indices: the one with the
/// larger value outranks the other, and `max` keeps it on either side.
pub proof fn lemma_non_tie<T: Magnitude>(a: IndexedValue<T>, b: IndexedValue<T>)
    requires
        magnitude_injective::<T>(),
        a.value != b.value,
    ensures
        a.value.magnitude() != b.value.magnitude(),
        a.outranks(b) == (a.value.magnitude() > b.value.magnitude()),
        b.outranks(a) == (b.value.magnitude() > a.value.magnitude()),
        a.higher(b) == (if a.value.magnitude() > b.value.magnitude() { a } else { b }),
        b.higher(a) == (if a.value.magnitude() > b.value.magnitude() { a } else { b }),
{
}

/// `higher` keeps one of its arguments; neither argument outranks it, and
/// whatever outranks neither argument does not outrank it either.
pub proof fn lemma_higher_bounds<T: Magnitude>(a: IndexedValue<T>, b: IndexedValue<T>)
    ensures
        a.higher(b) == a || a.higher(b) == b,
        !a.outranks(a.higher(b)),
        !b.outranks(a.higher(b)),
        forall|y: IndexedValue<T>| !y.outranks(a) ==> !#[trigger] y.outranks(a.higher(b)),
        forall|y: IndexedValue<T>| !y.outranks(b) ==> !#[trigger] y.outranks(a.higher(b)),
{
}

/// For values ranked by an injective magnitude, two entries neither of
/// which outranks the other are equal: the ranking is a total order.
pub proof fn lemma_rank_total<T: Magnitude>(a: IndexedValue<T>, b: IndexedValue<T>)
    requires
        magnitude_injective::<T>(),
        !a.outranks(b),
        !b.outranks(a),
    ensures
        a == b,
{
    assert(a.value.magnitude() == b.value.magnitude());
    assert(a.value == b.value);
}

} // verus!
