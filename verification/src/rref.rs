//! Move-only ownership handles over shared-heap allocations, and a bounded
//! ring buffer of values held inside one such handle. A handle is the
//! capability to reach its value: the type cannot be copied, so at most one
//! live reference to the allocation exists at a time, and moving data between
//! domains is a retag of one attribution-table entry, never a copy.

use vstd::prelude::*;

verus! {

use crate::heap::{PHeap, MemLayout, rec_of, keep_on_dealloc, retag_on_change};

/// An exclusive reference to one shared-heap allocation, tagged with the
/// domain that owns it. Dereference goes only through the handle; the handle
/// moves, it is never duplicated. Destruction is explicit, through `free`: a
/// handle merely discarded leaves its attribution-table entry live, and that
/// memory comes back only when the owning domain is swept by `drop_domain`.
pub struct RRef<T> {
    domain_id: u64,
    addr: usize,
    layout: MemLayout,
    value: T,
}

impl<T> RRef<T> {
    /// The domain tag the handle carries.
    pub closed spec fn dom(self) -> u64 {
        self.domain_id
    }

    /// The address of the underlying allocation.
    pub closed spec fn location(self) -> usize {
        self.addr
    }

    /// The layout the allocation was made with.
    pub closed spec fn mem_layout(self) -> MemLayout {
        self.layout
    }

    /// The value the handle guards.
    pub closed spec fn val(self) -> T {
        self.value
    }

    /// The handle's tag matches a live entry of the attribution table: the
    /// table still owes this allocation to the handle's domain.
    pub open spec fn valid(self, h: PHeap) -> bool {
        h@.contains(rec_of(self.dom(), self.location(), self.mem_layout()))
    }

    /// Allocate a value on the shared heap: the physical allocator produced
    /// the fresh address `addr` for `layout`, the attribution table records
    /// it for `domain_id` — the creating thread's current domain — and the
    /// value moves in behind the returned handle.
    pub fn new(heap: &mut PHeap, domain_id: u64, addr: usize, layout: MemLayout, value: T) -> (r:
        RRef<T>)
        requires
            old(heap).wf(),
            !old(heap).owns_addr(addr),
        ensures
            final(heap).wf(),
            final(heap)@ == old(heap)@.push(rec_of(domain_id, addr, layout)),
            r.dom() == domain_id,
            r.location() == addr,
            r.mem_layout() == layout,
            r.val() == value,
            r.valid(*final(heap)),
    {
        heap.alloc_heap(domain_id, addr, layout);
        let r = RRef { domain_id, addr, layout, value };
        proof {
            assert(final(heap)@[final(heap)@.len() - 1] == rec_of(domain_id, addr, layout));
        }
        r
    }

    /// Read the guarded value through the handle.
    pub fn deref(&self) -> (r: &T)
        ensures
            *r == self.val(),
    {
        &self.value
    }

    /// Write the guarded value through the handle.
    pub fn deref_mut(&mut self) -> (r: &mut T)
        ensures
            *r == old(self).val(),
            final(self).val() == *final(r),
            final(self).dom() == old(self).dom(),
            final(self).location() == old(self).location(),
            final(self).mem_layout() == old(self).mem_layout(),
    {
        &mut self.value
    }

    /// Hand the allocation to another domain: retag the attribution-table
    /// entry and the handle together. From here on a dealloc tagged with the
    /// old domain no longer matches anything — the old domain has lost the
    /// capability — while the handle itself is expected to travel to the new
    /// domain through the cross-domain call that prompted the move.
    pub fn move_to(&mut self, heap: &mut PHeap, new_domain_id: u64)
        requires
            old(heap).wf(),
            old(self).valid(*old(heap)),
        ensures
            final(heap).wf(),
            final(heap)@ == old(heap)@.map_values(
                retag_on_change(
                    old(self).dom(),
                    new_domain_id,
                    old(self).location(),
                    old(self).mem_layout(),
                ),
            ),
            final(self).dom() == new_domain_id,
            final(self).location() == old(self).location(),
            final(self).mem_layout() == old(self).mem_layout(),
            final(self).val() == old(self).val(),
            final(self).valid(*final(heap)),
    {
        let from = self.domain_id;
        heap.change_domain(from, new_domain_id, self.addr, self.layout);
        self.domain_id = new_domain_id;
        proof {
            let f = retag_on_change(from, new_domain_id, self.addr, self.layout);
            let rec = rec_of(from, self.addr, self.layout);
            let i = choose|i: int| 0 <= i < old(heap)@.len() && old(heap)@[i] == rec;
            assert(final(heap)@[i] == f(rec));
            assert(final(heap)@[i] == rec_of(new_domain_id, self.addr, self.layout));
        }
    }

    /// Destroy the handle: the value comes back out, and the allocation's
    /// table entry — tagged with the handle's current domain — is removed, so
    /// the caller can return the memory range when `freed` is true. When the
    /// owning domain has meanwhile crashed and been swept by `drop_domain`,
    /// the entry is already gone: the dealloc matches nothing and `freed` is
    /// false.
    pub fn free(self, heap: &mut PHeap) -> (r: (T, bool))
        ensures
            final(heap)@ == old(heap)@.filter(
                keep_on_dealloc(self.dom(), self.location(), self.mem_layout()),
            ),
            r.1 == old(heap)@.contains(rec_of(self.dom(), self.location(), self.mem_layout())),
            old(heap).wf() ==> final(heap).wf(),
            r.0 == self.val(),
    {
        let RRef { domain_id, addr, layout, value } = self;
        let freed = heap.dealloc_heap(domain_id, addr, layout);
        (value, freed)
    }
}

/// A fixed-capacity circular buffer of up to `N` values, all stored inside a
/// single ownership handle over one `N`-slot array. Because the whole array
/// lives in one allocation, handing a full batch of `N` values to another
/// domain costs one attribution retag, whatever `N` is. When the buffer is
/// full, `push_back` silently overwrites the oldest value.
pub struct RRefDeque<T, const N: usize> {
    arr: RRef<Vec<Option<T>>>,
    head: usize,
    tail: usize,
}

impl<T, const N: usize> RRefDeque<T, N> {
    /// The backing slots, as stored.
    pub closed spec fn slots(self) -> Seq<Option<T>> {
        self.arr.val()@
    }

    /// The slot holding logical position `k`, counting from the oldest entry
    /// at the tail cursor and wrapping around the end of the array.
    pub closed spec fn slot_at(self, k: int) -> int {
        if self.tail + k < N {
            self.tail + k
        } else {
            self.tail + k - N
        }
    }

    /// How many values the buffer holds: the cursor distance, except that
    /// coinciding cursors mean either empty or full, told apart by the slot
    /// under them.
    pub closed spec fn len_spec(self) -> int {
        if self.head > self.tail {
            self.head - self.tail
        } else if self.head < self.tail {
            self.head + N - self.tail
        } else if self.slots()[self.head as int] is Some {
            N as int
        } else {
            0
        }
    }

    /// The buffered values, oldest first.
    pub closed spec fn view(self) -> Seq<T> {
        Seq::new(self.len_spec() as nat, |k: int| self.slots()[self.slot_at(k)].unwrap())
    }

    /// The slots under the first `len` logical positions hold values; the
    /// rest hold nothing.
    pub closed spec fn wf(self) -> bool {
        &&& 1 <= N
        &&& self.slots().len() == N
        &&& self.head < N
        &&& self.tail < N
        &&& forall|k: int|
            0 <= k < self.len_spec() ==> self.slots()[#[trigger] self.slot_at(k)] is Some
        &&& forall|k: int|
            self.len_spec() <= k < N ==> self.slots()[#[trigger] self.slot_at(k)] is None
    }

    /// Allocate an empty buffer on the shared heap: one handle over the given
    /// `N`-slot empty array, recorded for `domain_id` at the fresh address
    /// `addr`.
    pub fn new(
        heap: &mut PHeap,
        domain_id: u64,
        addr: usize,
        layout: MemLayout,
        empty_arr: Vec<Option<T>>,
    ) -> (q: RRefDeque<T, N>)
        requires
            old(heap).wf(),
            !old(heap).owns_addr(addr),
            N >= 1,
            empty_arr@.len() == N,
            forall|i: int| 0 <= i < empty_arr@.len() ==> (#[trigger] empty_arr@[i]) is None,
        ensures
            final(heap).wf(),
            final(heap)@ == old(heap)@.push(rec_of(domain_id, addr, layout)),
            q.wf(),
            q@ == Seq::<T>::empty(),
    {
        let arr = RRef::new(heap, domain_id, addr, layout, empty_arr);
        let q = RRefDeque { arr, head: 0, tail: 0 };
        proof {
            assert(q.len_spec() == 0);
            assert(q@ =~= Seq::<T>::empty());
        }
        q
    }

    /// How many values are buffered.
    pub fn len(&self) -> (n: usize)
        requires
            self.wf(),
        ensures
            n == self@.len(),
    {
        if self.head > self.tail {
            self.head - self.tail
        } else if self.head < self.tail {
            N - self.tail + self.head
        } else if self.arr.deref()[self.head].is_some() {
            N
        } else {
            0
        }
    }

    /// Append a value as the newest entry. A full buffer is not an error:
    /// the oldest entry is silently overwritten and the tail cursor advances
    /// past it — first-in-first-out with overwrite.
    pub fn push_back(&mut self, value: T)
        requires
            old(self).wf(),
        ensures
            final(self).wf(),
            old(self)@.len() < N ==> final(self)@ == old(self)@.push(value),
            old(self)@.len() == N ==> final(self)@ == old(self)@.drop_first().push(value),
    {
        let head = self.head;
        let tail = self.tail;
        let full = head == tail && self.arr.deref()[head].is_some();
        if full {
            self.tail = if tail + 1 == N {
                0
            } else {
                tail + 1
            };
        }
        let slots = self.arr.deref_mut();
        slots[head] = Some(value);
        self.head = if head + 1 == N {
            0
        } else {
            head + 1
        };
        proof {
            let l0 = old(self).len_spec();
            assert forall|a: int, b: int|
                0 <= a < N && 0 <= b < N && old(self).slot_at(a) == old(self).slot_at(b)
                implies a == b by {}
            if l0 < N {
                assert(old(self).slot_at(l0) == head as int);
                assert(self.len_spec() == l0 + 1) by {
                    if l0 >= 1 {
                        assert(self.slots()[old(self).slot_at(0)] is Some);
                    }
                }
                assert forall|k: int| 0 <= k < self.len_spec() implies self.slots()[
                    #[trigger] self.slot_at(k)
                ] is Some by {
                    assert(self.slot_at(k) == old(self).slot_at(k));
                }
                assert forall|k: int| self.len_spec() <= k < N implies self.slots()[
                    #[trigger] self.slot_at(k)
                ] is None by {
                    assert(self.slot_at(k) == old(self).slot_at(k));
                }
                assert(self@ =~= old(self)@.push(value)) by {
                    assert forall|k: int| 0 <= k < l0 + 1 implies self@[k] == old(self)@.push(
                        value,
                    )[k] by {
                        assert(self.slot_at(k) == old(self).slot_at(k));
                    }
                }
            } else {
                assert(head == tail);
                assert(self.len_spec() == N) by {
                    if N >= 2 {
                        assert(self.slot_at(0) == old(self).slot_at(1));
                        assert(self.slots()[old(self).slot_at(1)] is Some);
                    }
                }
                assert forall|k: int| 0 <= k < N implies self.slots()[
                    #[trigger] self.slot_at(k)
                ] is Some by {
                    if k < N - 1 {
                        assert(self.slot_at(k) == old(self).slot_at(k + 1));
                    } else {
                        assert(self.slot_at(k) == head as int);
                    }
                }
                assert(self@ =~= old(self)@.drop_first().push(value)) by {
                    assert forall|k: int| 0 <= k < N implies self@[k] == old(
                        self,
                    )@.drop_first().push(value)[k] by {
                        if k < N - 1 {
                            assert(self.slot_at(k) == old(self).slot_at(k + 1));
                        } else {
                            assert(self.slot_at(k) == head as int);
                        }
                    }
                }
            }
        }
    }

    /// Remove and return the oldest entry, or `None` when the buffer is
    /// empty.
    pub fn pop_front(&mut self) -> (r: Option<T>)
        requires
            old(self).wf(),
        ensures
            final(self).wf(),
            old(self)@.len() == 0 ==> r is None && final(self)@ == old(self)@,
            old(self)@.len() > 0 ==> r == Some(old(self)@[0]) && final(self)@ == old(
                self,
            )@.drop_first(),
    {
        let tail = self.tail;
        let slots = self.arr.deref_mut();
        let value = slots[tail].take();
        if value.is_some() {
            self.tail = if tail + 1 == N {
                0
            } else {
                tail + 1
            };
        }
        proof {
            let l0 = old(self).len_spec();
            assert forall|a: int, b: int|
                0 <= a < N && 0 <= b < N && old(self).slot_at(a) == old(self).slot_at(b)
                implies a == b by {}
            assert(old(self).slot_at(0) == tail as int);
            if l0 == 0 {
                assert(value is None);
                assert(self.slots() =~= old(self).slots());
                assert(self.len_spec() == 0);
                assert(self@ =~= old(self)@);
                assert forall|k: int| 0 <= k < N implies self.slots()[
                    #[trigger] self.slot_at(k)
                ] is None by {
                    assert(self.slot_at(k) == old(self).slot_at(k));
                    assert(old(self).slots()[#[trigger] old(self).slot_at(k)] is None);
                }
            } else {
                assert(value == Some(old(self)@[0]));
                assert(self.len_spec() == l0 - 1) by {
                    if N >= 2 && l0 == N {
                        assert(self.slot_at(N - 1) == tail as int);
                    }
                    if l0 == 1 && N >= 2 {
                        assert(old(self).slots()[#[trigger] old(self).slot_at(1)] is None);
                        assert(old(self).slot_at(1) == if tail + 1 < N {
                            tail as int + 1
                        } else {
                            tail as int + 1 - N
                        });
                    }
                }
                assert forall|k: int| 0 <= k < self.len_spec() implies self.slots()[
                    #[trigger] self.slot_at(k)
                ] is Some by {
                    assert(self.slot_at(k) == old(self).slot_at(k + 1));
                }
                assert forall|k: int| self.len_spec() <= k < N implies self.slots()[
                    #[trigger] self.slot_at(k)
                ] is None by {
                    if k < N - 1 {
                        assert(self.slot_at(k) == old(self).slot_at(k + 1));
                    } else {
                        assert(self.slot_at(k) == tail as int);
                    }
                }
                assert(self@ =~= old(self)@.drop_first()) by {
                    assert forall|k: int| 0 <= k < l0 - 1 implies self@[k] == old(
                        self,
                    )@.drop_first()[k] by {
                        assert(self.slot_at(k) == old(self).slot_at(k + 1));
                    }
                }
            }
        }
        value
    }
}

} // verus!
