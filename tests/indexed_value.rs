use parallel_collatz::indexed_value::IndexedValue;
use std::cmp::Ordering;

#[test]
fn different_value() {
    let a = IndexedValue { n: 0, value: 10 };
    let b = IndexedValue { n: 1, value: 20 };
    assert_eq!(IndexedValue::max(a, b), b);
}

#[test]
fn same_value() {
    let a = IndexedValue { n: 0, value: 10 };
    let b = IndexedValue { n: 1, value: 10 };
    assert_eq!(IndexedValue::max(a, b), a);
}

#[test]
fn tie_keeps_smaller_index_on_either_side() {
    let a = IndexedValue { n: 3, value: 7u64 };
    let b = IndexedValue { n: 8, value: 7u64 };
    assert_eq!(b.max(a), a);
    assert_eq!(a.max(b), a);
    assert_eq!(a.cmp(&b), Ordering::Greater);
    assert_eq!(b.cmp(&a), Ordering::Less);
}

#[test]
fn larger_value_wins_over_smaller_index() {
    let a = IndexedValue { n: 0, value: 5usize };
    let b = IndexedValue { n: 100, value: 6usize };
    assert_eq!(a.max(b), b);
    assert_eq!(b.max(a), b);
    assert_eq!(a.cmp(&b), Ordering::Less);
}

#[test]
fn equal_entries_compare_equal() {
    let a = IndexedValue { n: 4, value: 9u32 };
    assert_eq!(a.cmp(&a), Ordering::Equal);
    assert_eq!(a.max(a), a);
}
