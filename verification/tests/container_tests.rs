use core::cmp::Ordering;

use wfst::utils::{ComparatorHeap, LinkedHashSet, RevOrd};

#[test]
fn linked_hash_set_order() {
    let mut s = LinkedHashSet::new();
    assert!(s.is_empty());
    assert_eq!(s.insert(3), None);
    assert_eq!(s.insert(1), None);
    assert_eq!(s.insert(2), None);
    // re-inserting an existing member is a no-op for the order
    assert_eq!(s.insert(1), Some(()));
    assert_eq!(s.iter(), vec![3, 1, 2]);
    assert!(s.contains(1));
    assert!(!s.contains(7));
}

#[test]
fn linked_hash_set_pop_front() {
    let mut s = LinkedHashSet::new();
    s.insert(3);
    s.insert(1);
    s.insert(2);
    assert_eq!(s.pop_front(), Some(3));
    assert_eq!(s.pop_front(), Some(1));
    assert_eq!(s.pop_front(), Some(2));
    assert_eq!(s.pop_front(), None);
    assert!(s.is_empty());
}

#[test]
fn linked_hash_set_remove() {
    let mut s = LinkedHashSet::new();
    s.insert(3);
    s.insert(1);
    s.insert(2);
    assert_eq!(s.remove(1), Some(()));
    assert_eq!(s.remove(1), None);
    assert_eq!(s.iter(), vec![3, 2]);
}

#[test]
fn comparator_heap_pops_least() {
    let compare = |a: &u64, b: &u64| -> Ordering { a.cmp(b) };
    let mut h = ComparatorHeap::new(&compare);
    assert!(h.is_empty());
    h.push(5);
    h.push(1);
    h.push(9);
    h.push(3);
    assert_eq!(h.len(), 4);
    assert_eq!(h.peek().copied(), Some(1));
    assert_eq!(h.pop(), Some(1));
    assert_eq!(h.pop(), Some(3));
    assert_eq!(h.pop(), Some(5));
    assert_eq!(h.pop(), Some(9));
    assert_eq!(h.pop(), None);
}

#[test]
fn comparator_heap_reversed_comparator() {
    let compare = |a: &u64, b: &u64| -> Ordering { b.cmp(a) };
    let mut h = ComparatorHeap::with_capacity(&compare, 8);
    h.reserve(4);
    h.push(5);
    h.push(1);
    h.push(9);
    assert_eq!(h.pop(), Some(9));
    assert_eq!(h.pop(), Some(5));
    assert_eq!(h.pop(), Some(1));
}

#[test]
fn comparator_heap_sorted_vec() {
    let compare = |a: &u64, b: &u64| -> Ordering { a.cmp(b) };
    let mut h = ComparatorHeap::new(&compare);
    for v in [4u64, 2, 7, 2, 0] {
        h.push(v);
    }
    assert_eq!(h.into_sorted_vec(), vec![0, 2, 2, 4, 7]);
}

#[test]
fn comparator_heap_clear_and_into_vec() {
    let compare = |a: &u64, b: &u64| -> Ordering { a.cmp(b) };
    let mut h = ComparatorHeap::new(&compare);
    h.push(4);
    h.push(2);
    let mut v = h.into_vec();
    v.sort();
    assert_eq!(v, vec![2, 4]);
    let mut h2 = ComparatorHeap::new(&compare);
    h2.push(1);
    h2.clear();
    assert!(h2.is_empty());
}

#[test]
fn rev_ord_inverts() {
    assert!(RevOrd(3u64) < RevOrd(2u64));
    assert!(RevOrd(1u64) > RevOrd(2u64));
    assert!(RevOrd(2u64) == RevOrd(2u64));
}
