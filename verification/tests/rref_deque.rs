use isocore::heap::{MemLayout, PHeap};
use isocore::rref::{RRef, RRefDeque};

fn layout() -> MemLayout {
    MemLayout { size: 64, align: 8 }
}

#[test]
fn rrefdeque_empty() {
    let mut heap = PHeap::new();
    let mut deque: RRefDeque<usize, 3> =
        RRefDeque::new(&mut heap, 0, 0x1000, layout(), vec![None, None, None]);
    assert_eq!(deque.pop_front(), None);
}

#[test]
fn rref_deque_insertion() {
    let mut heap = PHeap::new();
    let mut deque: RRefDeque<usize, 3> =
        RRefDeque::new(&mut heap, 0, 0x1000, layout(), vec![None, None, None]);
    deque.push_back(1);
    deque.push_back(2);
    assert_eq!(deque.pop_front(), Some(1));
    assert_eq!(deque.pop_front(), Some(2));
}

#[test]
fn rref_deque_overrite() {
    let mut heap = PHeap::new();
    let mut deque: RRefDeque<usize, 3> =
        RRefDeque::new(&mut heap, 0, 0x1000, layout(), vec![None, None, None]);
    deque.push_back(1);
    deque.push_back(2);
    deque.push_back(3);
    deque.push_back(4);
    assert_eq!(deque.pop_front(), Some(2));
    deque.push_back(5);
    assert_eq!(deque.pop_front(), Some(3));
    assert_eq!(deque.pop_front(), Some(4));
    assert_eq!(deque.pop_front(), Some(5));
    assert_eq!(deque.pop_front(), None);
}

#[test]
fn ring_overwrite_drops_oldest() {
    let mut heap = PHeap::new();
    let mut deque: RRefDeque<u64, 3> =
        RRefDeque::new(&mut heap, 0, 0x2000, layout(), vec![None, None, None]);
    deque.push_back(1);
    deque.push_back(2);
    deque.push_back(3);
    assert_eq!(deque.len(), 3);
    deque.push_back(4);
    assert_eq!(deque.len(), 3);
    assert_eq!(deque.pop_front(), Some(2));
    assert_eq!(deque.pop_front(), Some(3));
    assert_eq!(deque.pop_front(), Some(4));
    assert_eq!(deque.pop_front(), None);
    deque.push_back(5);
    assert_eq!(deque.len(), 1);
    assert_eq!(deque.pop_front(), Some(5));
    assert_eq!(deque.pop_front(), None);
}

#[test]
fn rref_holds_value_and_frees_once() {
    let mut heap = PHeap::new();
    let mut r: RRef<u64> = RRef::new(&mut heap, 7, 0x3000, layout(), 41);
    assert_eq!(*r.deref(), 41);
    *r.deref_mut() = 42;
    assert_eq!(*r.deref(), 42);
    let (value, freed) = r.free(&mut heap);
    assert_eq!(value, 42);
    assert!(freed);
    assert!(!heap.has_addr(0x3000));
}

#[test]
fn rref_move_to_retags_owner() {
    let mut heap = PHeap::new();
    let mut r: RRef<u64> = RRef::new(&mut heap, 1, 0x4000, layout(), 9);
    r.move_to(&mut heap, 2);
    // A dealloc still tagged with the old domain matches nothing.
    assert!(!heap.dealloc_heap(1, 0x4000, layout()));
    assert!(heap.has_addr(0x4000));
    // The handle, now tagged with the new domain, still frees its allocation.
    let (value, freed) = r.free(&mut heap);
    assert_eq!(value, 9);
    assert!(freed);
    assert!(!heap.has_addr(0x4000));
}

#[test]
fn rref_free_after_domain_sweep_is_noop() {
    let mut heap = PHeap::new();
    let r: RRef<u64> = RRef::new(&mut heap, 5, 0x5000, layout(), 3);
    // The supervisor reclaims domain 5 while the handle is still alive.
    let freed_records = heap.drop_domain(5);
    assert_eq!(freed_records.len(), 1);
    // Destroying the handle afterwards observes the entry gone.
    let (value, freed) = r.free(&mut heap);
    assert_eq!(value, 3);
    assert!(!freed);
}
