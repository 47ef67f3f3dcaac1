use state_machine_strategy::bits::VarBitSet;
use state_machine_strategy::observed_vec::ObservedVec;
use std::sync::atomic::AtomicUsize;
use std::sync::atomic::Ordering;
use std::sync::Arc;

#[test]
fn observed_vec_len_and_is_empty() {
    let counter = Arc::new(AtomicUsize::new(0));
    let v = ObservedVec::new(Arc::clone(&counter), vec![10, 20, 30]);
    assert_eq!(v.len(), 3);
    assert!(!v.is_empty());
    let empty: ObservedVec<i32> = ObservedVec::new(counter, Vec::new());
    assert_eq!(empty.len(), 0);
    assert!(empty.is_empty());
}

#[test]
fn observed_vec_iterates_in_order() {
    let counter = Arc::new(AtomicUsize::new(0));
    let v = ObservedVec::new(Arc::clone(&counter), vec![1, 2, 3]);
    let mut it = v.into_iter();
    assert_eq!(it.next(), Some(1));
    assert_eq!(it.next(), Some(2));
    assert_eq!(it.next(), Some(3));
    assert_eq!(it.next(), None);
}

#[test]
fn observed_vec_counts_each_yielded_element_once() {
    let counter = Arc::new(AtomicUsize::new(0));
    let v = ObservedVec::new(Arc::clone(&counter), vec![4, 5, 6, 7]);
    let mut it = v.into_iter();
    it.next();
    it.next();
    assert_eq!(counter.load(Ordering::SeqCst), 2);
    it.next();
    it.next();
    // A None result is not counted.
    assert_eq!(it.next(), None);
    assert_eq!(counter.load(Ordering::SeqCst), 4);
}

#[test]
fn bitset_saturated_counts_every_slot() {
    let bits = VarBitSet::saturated(4);
    assert_eq!(bits.len(), 4);
    assert_eq!(bits.count(), 4);
    assert!(bits.test(0) && bits.test(3));
}

#[test]
fn bitset_clear_and_set_track_the_count() {
    let mut bits = VarBitSet::saturated(5);
    bits.clear(2);
    bits.clear(4);
    assert_eq!(bits.count(), 3);
    assert!(!bits.test(2));
    bits.set(2);
    assert_eq!(bits.count(), 4);
    assert!(bits.test(2));
}
