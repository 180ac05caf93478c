use isocore::heap::{MemLayout, PHeap};

fn l(size: usize) -> MemLayout {
    MemLayout { size, align: 8 }
}

#[test]
fn dealloc_removes_only_exact_match() {
    let mut heap = PHeap::new();
    heap.alloc_heap(1, 0x1000, l(16));
    heap.alloc_heap(2, 0x2000, l(16));

    // Wrong domain: a domain cannot free another's memory even if it guesses
    // the address.
    assert!(!heap.dealloc_heap(2, 0x1000, l(16)));
    assert!(heap.has_addr(0x1000));

    // Wrong layout: a mismatched size is a silent no-op.
    assert!(!heap.dealloc_heap(1, 0x1000, l(32)));
    assert!(heap.has_addr(0x1000));

    // Exact match: the entry goes, nothing else moves.
    assert!(heap.dealloc_heap(1, 0x1000, l(16)));
    assert!(!heap.has_addr(0x1000));
    assert!(heap.has_addr(0x2000));

    // Already freed: a second try finds nothing.
    assert!(!heap.dealloc_heap(1, 0x1000, l(16)));
}

#[test]
fn change_domain_moves_the_capability() {
    let mut heap = PHeap::new();
    heap.alloc_heap(1, 0x1000, l(16));
    heap.change_domain(1, 2, 0x1000, l(16));
    // The old owner's dealloc no longer matches.
    assert!(!heap.dealloc_heap(1, 0x1000, l(16)));
    // The new owner's does.
    assert!(heap.dealloc_heap(2, 0x1000, l(16)));
    assert!(!heap.has_addr(0x1000));
}

#[test]
fn change_domain_mismatch_changes_nothing() {
    let mut heap = PHeap::new();
    heap.alloc_heap(1, 0x1000, l(16));
    // Wrong current owner: nothing is retagged.
    heap.change_domain(3, 2, 0x1000, l(16));
    assert!(heap.dealloc_heap(1, 0x1000, l(16)));
}

#[test]
fn drop_domain_removes_exactly_that_domain() {
    let mut heap = PHeap::new();
    heap.alloc_heap(1, 0x1000, l(16));
    heap.alloc_heap(2, 0x2000, l(32));
    heap.alloc_heap(1, 0x3000, l(64));
    heap.alloc_heap(3, 0x4000, l(16));

    let freed = heap.drop_domain(1);
    assert_eq!(freed.len(), 2);
    assert_eq!(freed[0].addr, 0x1000);
    assert_eq!(freed[0].layout.size, 16);
    assert_eq!(freed[1].addr, 0x3000);
    assert_eq!(freed[1].layout.size, 64);

    assert!(!heap.has_addr(0x1000));
    assert!(!heap.has_addr(0x3000));
    assert!(heap.has_addr(0x2000));
    assert!(heap.has_addr(0x4000));

    // A second sweep of the same domain finds nothing more.
    let freed_again = heap.drop_domain(1);
    assert_eq!(freed_again.len(), 0);
}

#[test]
fn drop_domain_order_independent() {
    // Sweeping domain 1 before or after domain 2 allocates gives the same
    // table.
    let mut first = PHeap::new();
    first.alloc_heap(1, 0x1000, l(16));
    first.alloc_heap(2, 0x2000, l(16));
    first.drop_domain(1);

    let mut second = PHeap::new();
    second.alloc_heap(1, 0x1000, l(16));
    second.drop_domain(1);
    second.alloc_heap(2, 0x2000, l(16));

    assert!(first.has_addr(0x2000) && second.has_addr(0x2000));
    assert!(!first.has_addr(0x1000) && !second.has_addr(0x1000));
    assert!(first.dealloc_heap(2, 0x2000, l(16)));
    assert!(second.dealloc_heap(2, 0x2000, l(16)));
}
