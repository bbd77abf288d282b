//! Memo tables for sequence results: one interface, four strategies. Every
//! slot of a table is locked on its own, so workers on different keys never
//! wait for each other.
use vstd::prelude::*;
use vstd::rwlock::{RwLock, RwLockPredicate};
use std::sync::atomic::{AtomicUsize, Ordering};
use crate::sequence::{fits, result_of};

verus! {

/// The "absent" marker of a slot. No real result has length 0.
pub open spec fn absent() -> (usize, u64) {
    (0usize, 0u64)
}

/// What slot `i` may hold: nothing yet, or the true result for `i`.
pub open spec fn slot_ok(i: nat, v: (usize, u64)) -> bool {
    v == absent() || (fits(i) && v == result_of(i))
}

/// Lock predicate of the slot for key `index`.
pub struct SlotKey {
    pub index: usize,
}

impl RwLockPredicate<(usize, u64)> for SlotKey {
    open spec fn inv(self, v: (usize, u64)) -> bool {
        slot_ok(self.index as nat, v)
    }
}

/// A memo table shared by all workers through `&self`.
///
/// Slots only ever hold the absent marker or the true result of their key,
/// so whatever a reader sees is safe to use, whichever writer came last.
pub trait Cache: Sized {
    spec fn wf(&self) -> bool;

    /// Number of slots.
    spec fn capacity(&self) -> nat;

    /// Whether the strategy keeps any slots at all.
    spec fn memoizes() -> bool;

    /// A table of `len` absent slots (none for a strategy that keeps none).
    fn with_len(len: usize) -> (r: Self)
        ensures
            r.wf(),
            r.capacity() == (if Self::memoizes() { len as nat } else { 0 }),
    ;

    fn len(&self) -> (r: usize)
        requires
            self.wf(),
        ensures
            r as nat == self.capacity(),
    ;

    /// The content of slot `i`: the absent marker, or the true result for
    /// `i`. Keys outside the table always read as absent.
    fn get(&self, i: usize) -> (r: (usize, u64))
        requires
            self.wf(),
        ensures
            slot_ok(i as nat, r),
            i as nat >= self.capacity() ==> r == absent(),
    ;

    /// Overwrites slot `i` with `data`; a key outside the table is ignored.
    /// Only the true result for `i` (or the absent marker) may be stored.
    fn set(&self, i: usize, data: (usize, u64))
        requires
            self.wf(),
            (i as nat) < self.capacity() ==> slot_ok(i as nat, data),
    ;
}

/// Allocates `len` absent slots, slot `i` guarded for key `i`.
fn new_slots(len: usize) -> (r: Vec<RwLock<(usize, u64), SlotKey>>)
    ensures
        r@.len() == len,
        forall|i: int| 0 <= i < len ==> (#[trigger] r@[i]).pred() == (SlotKey { index: i as usize }),
{
    let mut slots: Vec<RwLock<(usize, u64), SlotKey>> = Vec::with_capacity(len);
    let mut i: usize = 0;
    while i < len
        invariant
            i <= len,
            slots@.len() == i,
            forall|j: int| 0 <= j < i ==> (#[trigger] slots@[j]).pred() == (SlotKey { index: j as usize }),
        decreases len - i,
    {
        slots.push(RwLock::new((0, 0), Ghost(SlotKey { index: i })));
        i += 1;
    }
    slots
}

/// Slots are well formed: one per key, each guarded for its own key.
pub open spec fn slots_wf(slots: Seq<RwLock<(usize, u64), SlotKey>>, len: usize) -> bool {
    &&& slots.len() == len
    &&& forall|i: int| 0 <= i < len ==> (#[trigger] slots[i]).pred() == (SlotKey { index: i as usize })
}

/// Reads slot `i` under a shared lock.
fn read_shared(slots: &Vec<RwLock<(usize, u64), SlotKey>>, i: usize) -> (r: (usize, u64))
    requires
        i < slots@.len(),
        slots@[i as int].pred() == (SlotKey { index: i }),
    ensures
        slot_ok(i as nat, r),
{
    let handle = slots[i].acquire_read();
    let r = *handle.borrow();
    handle.release_read();
    r
}

/// Writes slot `i` under the exclusive lock.
fn write_exclusive(slots: &Vec<RwLock<(usize, u64), SlotKey>>, i: usize, data: (usize, u64))
    requires
        i < slots@.len(),
        slots@[i as int].pred() == (SlotKey { index: i }),
        slot_ok(i as nat, data),
{
    let (_, handle) = slots[i].acquire_write();
    handle.release_write(data);
}

/// Each slot behind an exclusive lock: a lookup takes the slot's lock for
/// writing and puts the value back, so even readers of a slot take turns.
pub struct MutexCache {
    cache: Vec<RwLock<(usize, u64), SlotKey>>,
    len: usize,
}

impl Cache for MutexCache {
    closed spec fn wf(&self) -> bool {
        slots_wf(self.cache@, self.len)
    }

    closed spec fn capacity(&self) -> nat {
        self.len as nat
    }

    open spec fn memoizes() -> bool {
        true
    }

    fn with_len(len: usize) -> (r: Self) {
        MutexCache { cache: new_slots(len), len }
    }

    fn len(&self) -> (r: usize) {
        self.len
    }

    fn get(&self, i: usize) -> (r: (usize, u64)) {
        if i < self.len {
            let (v, handle) = self.cache[i].acquire_write();
            handle.release_write(v);
            v
        } else {
            (0, 0)
        }
    }

    fn set(&self, i: usize, data: (usize, u64)) {
        if i < self.len {
            write_exclusive(&self.cache, i, data);
        }
    }
}

/// Each slot behind a reader-writer lock: readers of a slot share it.
pub struct RwLockCache {
    cache: Vec<RwLock<(usize, u64), SlotKey>>,
    len: usize,
}

impl Cache for RwLockCache {
    closed spec fn wf(&self) -> bool {
        slots_wf(self.cache@, self.len)
    }

    closed spec fn capacity(&self) -> nat {
        self.len as nat
    }

    open spec fn memoizes() -> bool {
        true
    }

    fn with_len(len: usize) -> (r: Self) {
        RwLockCache { cache: new_slots(len), len }
    }

    fn len(&self) -> (r: usize) {
        self.len
    }

    fn get(&self, i: usize) -> (r: (usize, u64)) {
        if i < self.len {
            read_shared(&self.cache, i)
        } else {
            (0, 0)
        }
    }

    fn set(&self, i: usize, data: (usize, u64)) {
        if i < self.len {
            write_exclusive(&self.cache, i, data);
        }
    }
}

/// Reader-writer locked slots that also count lookups and hits.
pub struct CounterCache {
    cache: Vec<RwLock<(usize, u64), SlotKey>>,
    len: usize,
    counter: AtomicUsize,
    hit: AtomicUsize,
}

impl Cache for CounterCache {
    closed spec fn wf(&self) -> bool {
        slots_wf(self.cache@, self.len)
    }

    closed spec fn capacity(&self) -> nat {
        self.len as nat
    }

    open spec fn memoizes() -> bool {
        true
    }

    fn with_len(len: usize) -> (r: Self) {
        CounterCache {
            cache: new_slots(len),
            len,
            counter: AtomicUsize::new(0),
            hit: AtomicUsize::new(0),
        }
    }

    fn len(&self) -> (r: usize) {
        self.len
    }

    fn get(&self, i: usize) -> (r: (usize, u64)) {
        self.counter.fetch_add(1, Ordering::Relaxed);
        if i < self.len {
            let r = read_shared(&self.cache, i);
            if r.0 > 0 {
                self.hit.fetch_add(1, Ordering::Relaxed);
            }
            r
        } else {
            (0, 0)
        }
    }

    fn set(&self, i: usize, data: (usize, u64)) {
        if i < self.len {
            write_exclusive(&self.cache, i, data);
        }
    }
}

impl CounterCache {
    /// The number of lookups so far and how many of them found a result.
    /// Other threads may be counting concurrently: the two are read one
    /// after the other, each wrapping at `usize::MAX`.
    pub fn stats(&self) -> (r: (usize, usize)) {
        let attempts = self.counter.load(Ordering::Relaxed);
        let hits = self.hit.load(Ordering::Relaxed);
        (attempts, hits)
    }
}

/// No memoisation: every lookup misses and every store is dropped.
pub struct NoCache {}

impl Cache for NoCache {
    open spec fn wf(&self) -> bool {
        true
    }

    open spec fn capacity(&self) -> nat {
        0
    }

    open spec fn memoizes() -> bool {
        false
    }

    fn with_len(len: usize) -> (r: Self) {
        NoCache {}
    }

    fn len(&self) -> (r: usize) {
        0
    }

    fn get(&self, i: usize) -> (r: (usize, u64)) {
        (0, 0)
    }

    fn set(&self, i: usize, data: (usize, u64)) {
    }
}

} // verus!
