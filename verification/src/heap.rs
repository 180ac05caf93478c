//! Shared-heap attribution table: a global ledger that maps every live
//! shared-heap allocation to the domain that owns it. The table is the sole
//! authority on who may free an allocation, and the reclamation sweep for a
//! crashed domain walks it. The physical memory itself comes from an external
//! allocator; this module only keeps the ledger, so every operation takes and
//! returns plain addresses.

use vstd::prelude::*;

verus! {

/// Size and alignment of one shared-heap allocation, as handed to the
/// physical allocator.
#[derive(Clone, Copy, PartialEq, Eq, Structural, Debug)]
pub struct MemLayout {
    pub size: usize,
    pub align: usize,
}

/// One entry of the attribution table: an allocation at `addr` with layout
/// `layout`, owned by domain `domain_id`.
#[derive(Clone, Copy, PartialEq, Eq, Structural, Debug)]
pub struct AllocRecord {
    pub domain_id: u64,
    pub addr: usize,
    pub layout: MemLayout,
}

/// The record for an allocation at `addr` with layout `layout`, owned by
/// `domain_id`.
pub open spec fn rec_of(domain_id: u64, addr: usize, layout: MemLayout) -> AllocRecord {
    AllocRecord { domain_id, addr, layout }
}

/// No two entries of `t` share an address.
pub open spec fn records_wf(t: Seq<AllocRecord>) -> bool {
    forall|i: int, j: int|
        0 <= i < j < t.len() ==> (#[trigger] t[i]).addr != (#[trigger] t[j]).addr
}

/// What a `dealloc_heap(domain_id, addr, layout)` call keeps: every record
/// except an exact match of all three of domain, address and layout.
pub open spec fn keep_on_dealloc(domain_id: u64, addr: usize, layout: MemLayout) -> spec_fn(
    AllocRecord,
) -> bool {
    |r: AllocRecord| r != rec_of(domain_id, addr, layout)
}

/// What a `change_domain(from, to, addr, layout)` call does to one record:
/// the exact match of owner `from`, address and layout is retagged to `to`;
/// every other record is untouched.
pub open spec fn retag_on_change(from: u64, to: u64, addr: usize, layout: MemLayout) -> spec_fn(
    AllocRecord,
) -> AllocRecord {
    |r: AllocRecord|
        if r == rec_of(from, addr, layout) {
            rec_of(to, addr, layout)
        } else {
            r
        }
}

/// What a `drop_domain(domain_id)` call keeps: every record whose owner is
/// another domain.
pub open spec fn keep_on_drop(domain_id: u64) -> spec_fn(AllocRecord) -> bool {
    |r: AllocRecord| r.domain_id != domain_id
}

/// The attribution table itself. Invariant: no two entries share an address,
/// so "the entry for an allocation" is well defined.
pub struct PHeap {
    table: Vec<AllocRecord>,
}

impl PHeap {
    /// The table as a sequence of records, oldest first.
    pub closed spec fn view(self) -> Seq<AllocRecord> {
        self.table@
    }

    /// Every live address has exactly one record.
    pub open spec fn wf(self) -> bool {
        records_wf(self@)
    }

    /// Whether some entry records an allocation at `addr`.
    pub open spec fn owns_addr(self, addr: usize) -> bool {
        exists|i: int| 0 <= i < self@.len() && (#[trigger] self@[i]).addr == addr
    }

    pub fn new() -> (h: PHeap)
        ensures
            h@ == Seq::<AllocRecord>::empty(),
            h.wf(),
    {
        PHeap { table: Vec::new() }
    }

    /// Whether the table holds an entry for `addr`. A caller that has been
    /// handed a fresh address by the physical allocator uses this to discharge
    /// the freshness obligation of `alloc`.
    pub fn has_addr(&self, addr: usize) -> (r: bool)
        ensures
            r == self.owns_addr(addr),
    {
        let mut i: usize = 0;
        while i < self.table.len()
            invariant
                i <= self.table.len(),
                forall|k: int| 0 <= k < i ==> (#[trigger] self.table@[k]).addr != addr,
            decreases self.table.len() - i,
        {
            if self.table[i].addr == addr {
                proof {
                    assert(self@[i as int].addr == addr);
                }
                return true;
            }
            i = i + 1;
        }
        false
    }

    /// Record a fresh allocation: the physical allocator has just produced
    /// `addr` for `layout`, on behalf of `domain_id`. Appends the record to
    /// the table.
    pub fn alloc_heap(&mut self, domain_id: u64, addr: usize, layout: MemLayout)
        requires
            old(self).wf(),
            !old(self).owns_addr(addr),
        ensures
            final(self)@ == old(self)@.push(AllocRecord { domain_id, addr, layout }),
            final(self)@ == heap_step(old(self)@, (HeapOp::Alloc { domain_id, addr, layout })),
            final(self).wf(),
    {
        self.table.push(AllocRecord { domain_id, addr, layout });
        proof {
            assert(forall|i: int|
                0 <= i < old(self)@.len() ==> (#[trigger] old(self)@[i]).addr != addr);
        }
    }

    /// Free an allocation. Removes the entry matching all three of owning
    /// domain, address and layout exactly, and returns true: the caller then
    /// hands the memory back to the physical allocator. A mismatched call
    /// (wrong domain, wrong layout, or already freed) is a silent no-op that
    /// returns false — the capability check that keeps one domain from
    /// freeing another's memory even if it guesses the address.
    pub fn dealloc_heap(&mut self, domain_id: u64, addr: usize, layout: MemLayout) -> (freed:
        bool)
        ensures
            final(self)@ == old(self)@.filter(keep_on_dealloc(domain_id, addr, layout)),
            final(self)@ == heap_step(old(self)@, (HeapOp::Dealloc { domain_id, addr, layout })),
            freed == old(self)@.contains(rec_of(domain_id, addr, layout)),
            old(self).wf() ==> final(self).wf(),
    {
        let ghost pred = keep_on_dealloc(domain_id, addr, layout);
        let ghost t0 = self.table@;
        let mut kept: Vec<AllocRecord> = Vec::new();
        let mut found = false;
        let mut i: usize = 0;
        while i < self.table.len()
            invariant
                i <= t0.len(),
                self.table@ == t0,
                pred == keep_on_dealloc(domain_id, addr, layout),
                kept@ == t0.subrange(0, i as int).filter(pred),
                found == t0.subrange(0, i as int).contains(rec_of(domain_id, addr, layout)),
            decreases t0.len() - i,
        {
            let r = self.table[i];
            proof {
                lemma_filter_one_more(t0, pred, i as int);
                assert(t0.subrange(0, i as int + 1).drop_last() =~= t0.subrange(0, i as int));
            }
            if r.domain_id == domain_id && r.addr == addr && r.layout.size == layout.size
                && r.layout.align == layout.align {
                found = true;
            } else {
                kept.push(r);
            }
            proof {
                let sub = t0.subrange(0, i as int + 1);
                assert(found == sub.contains(rec_of(domain_id, addr, layout))) by {
                    if found {
                        if r == rec_of(domain_id, addr, layout) {
                            assert(sub[i as int] == r);
                        }
                    } else {
                        assert(forall|k: int|
                            0 <= k < sub.len() ==> #[trigger] sub[k] != rec_of(
                                domain_id,
                                addr,
                                layout,
                            ));
                    }
                }
            }
            i = i + 1;
        }
        proof {
            assert(t0.subrange(0, t0.len() as int) =~= t0);
            if records_wf(t0) {
                lemma_filter_keeps_wf(t0, pred);
            }
        }
        self.table = kept;
        found
    }

    /// Hand an allocation to another domain. Rewrites the owning-domain field
    /// of the entry matching owner `from`, address and layout in place; a
    /// mismatched call changes nothing. Used by ownership-handle transfer.
    pub fn change_domain(&mut self, from: u64, to: u64, addr: usize, layout: MemLayout)
        ensures
            final(self)@ == old(self)@.map_values(retag_on_change(from, to, addr, layout)),
            final(self)@ == heap_step(old(self)@, (HeapOp::ChangeDomain { from, to, addr, layout })),
            old(self).wf() ==> final(self).wf(),
    {
        let ghost f = retag_on_change(from, to, addr, layout);
        let ghost t0 = self.table@;
        let mut i: usize = 0;
        while i < self.table.len()
            invariant
                i <= t0.len(),
                self.table@.len() == t0.len(),
                f == retag_on_change(from, to, addr, layout),
                forall|k: int| 0 <= k < i ==> self.table@[k] == f(t0[k]),
                forall|k: int| i <= k < t0.len() ==> self.table@[k] == t0[k],
            decreases t0.len() - i,
        {
            let r = self.table[i];
            if r.domain_id == from && r.addr == addr && r.layout.size == layout.size
                && r.layout.align == layout.align {
                self.table[i] = AllocRecord { domain_id: to, addr, layout };
            }
            i = i + 1;
        }
        proof {
            assert(self.table@ =~= t0.map_values(f));
            if records_wf(t0) {
                assert forall|a: int, b: int| 0 <= a < b < t0.len() implies (
                #[trigger] self.table@[a]).addr != (#[trigger] self.table@[b]).addr by {
                    assert(t0[a].addr != t0[b].addr);
                }
            }
        }
    }

    /// The reclamation sweep for a dead domain. Removes every entry owned by
    /// `domain_id`, leaving all others untouched, and returns the removed
    /// records in table order so the caller can hand each range back to the
    /// physical allocator. This is the sole mechanism by which a crashed
    /// domain's shared memory is ever recovered.
    pub fn drop_domain(&mut self, domain_id: u64) -> (freed: Vec<AllocRecord>)
        ensures
            final(self)@ == old(self)@.filter(keep_on_drop(domain_id)),
            final(self)@ == heap_step(old(self)@, (HeapOp::DropDomain { domain_id })),
            freed@ == old(self)@.filter(dropped_on_drop(domain_id)),
            old(self).wf() ==> final(self).wf(),
    {
        let ghost keep = keep_on_drop(domain_id);
        let ghost gone = dropped_on_drop(domain_id);
        let ghost t0 = self.table@;
        let mut kept: Vec<AllocRecord> = Vec::new();
        let mut removed: Vec<AllocRecord> = Vec::new();
        let mut i: usize = 0;
        while i < self.table.len()
            invariant
                i <= t0.len(),
                self.table@ == t0,
                keep == keep_on_drop(domain_id),
                gone == dropped_on_drop(domain_id),
                kept@ == t0.subrange(0, i as int).filter(keep),
                removed@ == t0.subrange(0, i as int).filter(gone),
            decreases t0.len() - i,
        {
            let r = self.table[i];
            proof {
                lemma_filter_one_more(t0, keep, i as int);
                lemma_filter_one_more(t0, gone, i as int);
                assert(t0.subrange(0, i as int + 1).drop_last() =~= t0.subrange(0, i as int));
            }
            if r.domain_id == domain_id {
                removed.push(r);
            } else {
                kept.push(r);
            }
            i = i + 1;
        }
        proof {
            assert(t0.subrange(0, t0.len() as int) =~= t0);
            if records_wf(t0) {
                lemma_filter_keeps_wf(t0, keep);
            }
        }
        self.table = kept;
        removed
    }
}

/// What a `drop_domain(domain_id)` call removes: every record owned by that
/// domain.
pub open spec fn dropped_on_drop(domain_id: u64) -> spec_fn(AllocRecord) -> bool {
    |r: AllocRecord| r.domain_id == domain_id
}

/// One call against the attribution table, with the arguments the caller
/// passed. A history of the table is a sequence of these.
pub enum HeapOp {
    Alloc { domain_id: u64, addr: usize, layout: MemLayout },
    Dealloc { domain_id: u64, addr: usize, layout: MemLayout },
    ChangeDomain { from: u64, to: u64, addr: usize, layout: MemLayout },
    DropDomain { domain_id: u64 },
}

/// Whether some entry of `t` records an allocation at `addr`.
pub open spec fn addr_in(t: Seq<AllocRecord>, addr: usize) -> bool {
    exists|i: int| 0 <= i < t.len() && (#[trigger] t[i]).addr == addr
}

/// What one call does to the table. Each arm is word for word the
/// transformation that the matching method of `PHeap` ensures.
pub open spec fn heap_step(t: Seq<AllocRecord>, op: HeapOp) -> Seq<AllocRecord> {
    match op {
        HeapOp::Alloc { domain_id, addr, layout } => t.push(rec_of(domain_id, addr, layout)),
        HeapOp::Dealloc { domain_id, addr, layout } => t.filter(
            keep_on_dealloc(domain_id, addr, layout),
        ),
        HeapOp::ChangeDomain { from, to, addr, layout } => t.map_values(
            retag_on_change(from, to, addr, layout),
        ),
        HeapOp::DropDomain { domain_id } => t.filter(keep_on_drop(domain_id)),
    }
}

/// The table after a whole history of calls.
pub open spec fn heap_run(t0: Seq<AllocRecord>, ops: Seq<HeapOp>) -> Seq<AllocRecord>
    decreases ops.len(),
{
    if ops.len() == 0 {
        t0
    } else {
        heap_step(heap_run(t0, ops.drop_last()), ops.last())
    }
}

/// A history is valid when every allocation in it is made at an address that
/// is free at that point — which is what the physical allocator guarantees,
/// and what `alloc_heap` requires of its caller.
pub open spec fn ops_valid(t0: Seq<AllocRecord>, ops: Seq<HeapOp>) -> bool
    decreases ops.len(),
{
    if ops.len() == 0 {
        true
    } else {
        ops_valid(t0, ops.drop_last()) && match ops.last() {
            HeapOp::Alloc { domain_id, addr, layout } => !addr_in(
                heap_run(t0, ops.drop_last()),
                addr,
            ),
            _ => true,
        }
    }
}

/// The domain that owns the allocation `(addr, layout)` according to table
/// `t`, or `None` when no entry matches.
pub open spec fn owner_of(t: Seq<AllocRecord>, addr: usize, layout: MemLayout) -> Option<u64> {
    if exists|r: AllocRecord| #[trigger] t.contains(r) && r.addr == addr && r.layout == layout {
        Some(
            (choose|r: AllocRecord|
                #[trigger] t.contains(r) && r.addr == addr && r.layout == layout).domain_id,
        )
    } else {
        None
    }
}

/// How one call moves the owner of the allocation `(addr, layout)`: an
/// allocation installs its domain; an exactly matching dealloc clears it; an
/// exactly matching retag moves it; a reclamation sweep of the owning domain
/// clears it; every other call leaves it alone.
pub open spec fn owner_step(w: Option<u64>, op: HeapOp, addr: usize, layout: MemLayout) -> Option<
    u64,
> {
    match op {
        HeapOp::Alloc { domain_id, addr: a, layout: l } => if a == addr && l == layout {
            Some(domain_id)
        } else {
            w
        },
        HeapOp::Dealloc { domain_id, addr: a, layout: l } => if a == addr && l == layout && w
            == Some(domain_id) {
            None
        } else {
            w
        },
        HeapOp::ChangeDomain { from, to, addr: a, layout: l } => if a == addr && l == layout && w
            == Some(from) {
            Some(to)
        } else {
            w
        },
        HeapOp::DropDomain { domain_id } => if w == Some(domain_id) {
            None
        } else {
            w
        },
    }
}

/// The owner of `(addr, layout)` after a whole history, computed from the
/// calls alone.
pub open spec fn owner_after(
    w0: Option<u64>,
    ops: Seq<HeapOp>,
    addr: usize,
    layout: MemLayout,
) -> Option<u64>
    decreases ops.len(),
{
    if ops.len() == 0 {
        w0
    } else {
        owner_step(owner_after(w0, ops.drop_last(), addr, layout), ops.last(), addr, layout)
    }
}

/// Filtering one more element extends the filtered prefix by that element
/// exactly when the element passes.
proof fn lemma_filter_one_more(t: Seq<AllocRecord>, pred: spec_fn(AllocRecord) -> bool, i: int)
    requires
        0 <= i < t.len(),
    ensures
        t.subrange(0, i + 1).filter(pred) == if pred(t[i]) {
            t.subrange(0, i).filter(pred).push(t[i])
        } else {
            t.subrange(0, i).filter(pred)
        },
{
    reveal(Seq::filter);
    let sub = t.subrange(0, i + 1);
    assert(sub.drop_last() =~= t.subrange(0, i));
    assert(sub.last() == t[i]);
}

/// A record is in a filtered table exactly when it is in the original and
/// passes the filter.
proof fn lemma_filter_contains_iff(t: Seq<AllocRecord>, pred: spec_fn(AllocRecord) -> bool)
    ensures
        forall|r: AllocRecord| #[trigger]
            t.filter(pred).contains(r) <==> t.contains(r) && pred(r),
    decreases t.len(),
{
    reveal(Seq::filter);
    if t.len() > 0 {
        let dl = t.drop_last();
        let x = t.last();
        lemma_filter_contains_iff(dl, pred);
        lemma_contains_push(dl.filter(pred), x);
        assert forall|r: AllocRecord| #[trigger]
            t.filter(pred).contains(r) <==> t.contains(r) && pred(r) by {
            assert(t.contains(r) <==> dl.contains(r) || r == x) by {
                if t.contains(r) {
                    let i = choose|i: int| 0 <= i < t.len() && t[i] == r;
                    if i < t.len() - 1 {
                        assert(dl[i] == r);
                    }
                }
                if dl.contains(r) {
                    let i = choose|i: int| 0 <= i < dl.len() && dl[i] == r;
                    assert(t[i] == r);
                }
                if r == x {
                    assert(t[t.len() - 1] == r);
                }
            }
            if pred(x) {
                assert(t.filter(pred) == dl.filter(pred).push(x));
            } else {
                assert(t.filter(pred) == dl.filter(pred));
            }
        }
    } else {
        assert(t.filter(pred) =~= Seq::<AllocRecord>::empty());
    }
}

/// Pushing a record extends containment by exactly that record.
proof fn lemma_contains_push(t: Seq<AllocRecord>, x: AllocRecord)
    ensures
        forall|r: AllocRecord| #[trigger] t.push(x).contains(r) <==> t.contains(r) || r == x,
{
    assert forall|r: AllocRecord| #[trigger]
        t.push(x).contains(r) <==> t.contains(r) || r == x by {
        if t.push(x).contains(r) {
            let i = choose|i: int| 0 <= i < t.push(x).len() && t.push(x)[i] == r;
            if i < t.len() {
                assert(t[i] == r);
            }
        }
        if t.contains(r) {
            let i = choose|i: int| 0 <= i < t.len() && t[i] == r;
            assert(t.push(x)[i] == r);
        }
        if r == x {
            assert(t.push(x)[t.len() as int] == r);
        }
    }
}

/// In a well-formed table two records that share an address are one record.
proof fn lemma_unique_addr(t: Seq<AllocRecord>)
    requires
        records_wf(t),
    ensures
        forall|r1: AllocRecord, r2: AllocRecord|
            t.contains(r1) && t.contains(r2) && #[trigger] r1.addr == #[trigger] r2.addr ==> r1
                == r2,
{
    assert forall|r1: AllocRecord, r2: AllocRecord|
        t.contains(r1) && t.contains(r2) && #[trigger] r1.addr == #[trigger] r2.addr implies r1
        == r2 by {
        let i = choose|i: int| 0 <= i < t.len() && t[i] == r1;
        let j = choose|j: int| 0 <= j < t.len() && t[j] == r2;
        if i != j {
            assert(t[i].addr != t[j].addr);
        }
    }
}

/// In a well-formed table, a matching record settles the owner.
proof fn lemma_owner_of_witness(t: Seq<AllocRecord>, addr: usize, layout: MemLayout, r: AllocRecord)
    requires
        records_wf(t),
        t.contains(r),
        r.addr == addr,
        r.layout == layout,
    ensures
        owner_of(t, addr, layout) == Some(r.domain_id),
{
    lemma_unique_addr(t);
    let r0 = choose|r0: AllocRecord| #[trigger]
        t.contains(r0) && r0.addr == addr && r0.layout == layout;
    assert(r0 == r);
}

/// A filter that every record passes changes nothing.
proof fn lemma_filter_all_true(t: Seq<AllocRecord>, pred: spec_fn(AllocRecord) -> bool)
    requires
        forall|i: int| 0 <= i < t.len() ==> pred(#[trigger] t[i]),
    ensures
        t.filter(pred) == t,
    decreases t.len(),
{
    reveal(Seq::filter);
    if t.len() > 0 {
        let dl = t.drop_last();
        assert(forall|i: int| 0 <= i < dl.len() ==> pred(#[trigger] dl[i])) by {
            assert(forall|i: int| 0 <= i < dl.len() ==> dl[i] == t[i]);
        }
        lemma_filter_all_true(dl, pred);
        assert(pred(t.last())) by {
            assert(t.last() == t[t.len() - 1]);
        }
        assert(t.filter(pred) =~= t);
    } else {
        assert(t.filter(pred) =~= t);
    }
}

/// Attribution-table correctness. Over any valid history of calls, the table
/// stays well formed, and the owner it records for any fixed allocation
/// `(addr, layout)` is the one computed from the calls alone by `owner_after`:
/// the latest matching allocation, followed through exactly matching retags,
/// and cleared by an exactly matching dealloc or by a reclamation sweep of its
/// owning domain. Mismatched calls never move it.
pub proof fn lemma_attribution_table(
    t0: Seq<AllocRecord>,
    ops: Seq<HeapOp>,
    addr: usize,
    layout: MemLayout,
)
    requires
        records_wf(t0),
        ops_valid(t0, ops),
    ensures
        records_wf(heap_run(t0, ops)),
        owner_of(heap_run(t0, ops), addr, layout) == owner_after(
            owner_of(t0, addr, layout),
            ops,
            addr,
            layout,
        ),
    decreases ops.len(),
{
    if ops.len() > 0 {
        lemma_attribution_table(t0, ops.drop_last(), addr, layout);
        lemma_owner_step_correct(heap_run(t0, ops.drop_last()), ops.last(), addr, layout);
    }
}

/// The exact sense in which `dealloc_heap` removes an entry: after any valid
/// history, the entry `(domain_id, addr, layout)` that a dealloc would match
/// is in the table if and only if the history gives `domain_id` as the current
/// owner of `(addr, layout)` — an unexpired allocation at `addr` with that
/// layout whose ownership was never retagged away.
pub proof fn lemma_dealloc_matches_history(
    t0: Seq<AllocRecord>,
    ops: Seq<HeapOp>,
    domain_id: u64,
    addr: usize,
    layout: MemLayout,
)
    requires
        records_wf(t0),
        ops_valid(t0, ops),
    ensures
        heap_run(t0, ops).contains(rec_of(domain_id, addr, layout)) <==> owner_after(
            owner_of(t0, addr, layout),
            ops,
            addr,
            layout,
        ) == Some(domain_id),
{
    lemma_attribution_table(t0, ops, addr, layout);
    let t = heap_run(t0, ops);
    let rec = rec_of(domain_id, addr, layout);
    if t.contains(rec) {
        lemma_owner_of_witness(t, addr, layout, rec);
    }
    if owner_of(t, addr, layout) == Some(domain_id) {
        let r0 = choose|r0: AllocRecord| #[trigger]
            t.contains(r0) && r0.addr == addr && r0.layout == layout;
        assert(r0 == rec);
    }
}

/// Ownership transfer. After a retag of `(addr, layout)` from `from` to a
/// different domain `to`, the owner the table records is `to`, and a
/// subsequent dealloc still tagged with `from` matches nothing: it leaves the
/// table exactly as it was.
pub proof fn lemma_transfer_revokes_old_owner(
    t: Seq<AllocRecord>,
    from: u64,
    to: u64,
    addr: usize,
    layout: MemLayout,
)
    requires
        records_wf(t),
        from != to,
    ensures
        owner_of(t, addr, layout) == Some(from) ==> owner_of(
            heap_step(t, HeapOp::ChangeDomain { from, to, addr, layout }),
            addr,
            layout,
        ) == Some(to),
        heap_step(
            heap_step(t, HeapOp::ChangeDomain { from, to, addr, layout }),
            HeapOp::Dealloc { domain_id: from, addr, layout },
        ) == heap_step(t, HeapOp::ChangeDomain { from, to, addr, layout }),
{
    lemma_owner_step_correct(t, HeapOp::ChangeDomain { from, to, addr, layout }, addr, layout);
    let f = retag_on_change(from, to, addr, layout);
    let t1 = heap_step(t, HeapOp::ChangeDomain { from, to, addr, layout });
    let keep = keep_on_dealloc(from, addr, layout);
    assert forall|i: int| 0 <= i < t1.len() implies keep(#[trigger] t1[i]) by {
        assert(t1[i] == f(t[i]));
    }
    lemma_filter_all_true(t1, keep);
}

/// Crash reclamation is order-independent with respect to other domains'
/// allocations: sweeping domain `domain_id` before or after another domain
/// `other` allocates gives the same table.
pub proof fn lemma_drop_domain_commutes(
    t: Seq<AllocRecord>,
    domain_id: u64,
    other: u64,
    addr: usize,
    layout: MemLayout,
)
    requires
        other != domain_id,
    ensures
        heap_step(
            heap_step(t, HeapOp::Alloc { domain_id: other, addr, layout }),
            HeapOp::DropDomain { domain_id },
        ) == heap_step(
            heap_step(t, HeapOp::DropDomain { domain_id }),
            HeapOp::Alloc { domain_id: other, addr, layout },
        ),
{
    reveal(Seq::filter);
    let rec = rec_of(other, addr, layout);
    let keep = keep_on_drop(domain_id);
    let s = t.push(rec);
    assert(s.drop_last() =~= t);
    assert(s.last() == rec);
    assert(keep(rec));
    assert(s.filter(keep) == t.filter(keep).push(rec));
}

/// One table call moves the owner of any fixed allocation exactly as
/// `owner_step` says, and keeps the table well formed. The one assumption is
/// the one `alloc_heap` requires: an allocation is made at a free address.
proof fn lemma_owner_step_correct(t: Seq<AllocRecord>, op: HeapOp, addr: usize, layout: MemLayout)
    requires
        records_wf(t),
        match op {
            HeapOp::Alloc { addr: a, .. } => !addr_in(t, a),
            _ => true,
        },
    ensures
        records_wf(heap_step(t, op)),
        owner_of(heap_step(t, op), addr, layout) == owner_step(
            owner_of(t, addr, layout),
            op,
            addr,
            layout,
        ),
{
    lemma_unique_addr(t);
    let w = owner_of(t, addr, layout);
    let t1 = heap_step(t, op);
    match op {
        HeapOp::Alloc { domain_id: d, addr: a, layout: l } => {
            let rec = rec_of(d, a, l);
            lemma_contains_push(t, rec);
            assert(forall|i: int| 0 <= i < t.len() ==> (#[trigger] t[i]).addr != a);
            assert(records_wf(t1)) by {
                assert forall|i: int, j: int| 0 <= i < j < t1.len() implies (
                #[trigger] t1[i]).addr != (#[trigger] t1[j]).addr by {
                    if j < t.len() {
                    } else {
                        assert(t1[i] == t[i] && t1[j] == rec);
                    }
                }
            }
            assert(forall|r: AllocRecord|
                t.contains(r) ==> (#[trigger] r.addr) != a) by {
                assert forall|r: AllocRecord| t.contains(r) implies (#[trigger] r.addr) != a by {
                    let i = choose|i: int| 0 <= i < t.len() && t[i] == r;
                }
            }
            if a == addr && l == layout {
                lemma_owner_of_witness(t1, addr, layout, rec);
            } else {
                if w is Some {
                    let r0 = choose|r0: AllocRecord| #[trigger]
                        t.contains(r0) && r0.addr == addr && r0.layout == layout;
                    assert(r0 != rec);
                    lemma_owner_of_witness(t1, addr, layout, r0);
                } else {
                    assert forall|r: AllocRecord| #[trigger]
                        t1.contains(r) && r.addr == addr implies !(r.layout == layout) by {
                        if r != rec {
                            assert(t.contains(r));
                        }
                    }
                }
            }
        },
        HeapOp::Dealloc { domain_id: d, addr: a, layout: l } => {
            let rec = rec_of(d, a, l);
            let pred = keep_on_dealloc(d, a, l);
            lemma_filter_keeps_wf(t, pred);
            lemma_filter_contains_iff(t, pred);
            if w is Some {
                let r0 = choose|r0: AllocRecord| #[trigger]
                    t.contains(r0) && r0.addr == addr && r0.layout == layout;
                if a == addr && l == layout && w == Some(d) {
                    assert(r0 == rec);
                    assert forall|r: AllocRecord| #[trigger]
                        t1.contains(r) && r.addr == addr implies !(r.layout == layout) by {
                        assert(t.contains(r) && r != rec);
                        if r.layout == layout {
                            assert(r == r0);
                        }
                    }
                } else {
                    assert(r0 != rec);
                    lemma_owner_of_witness(t1, addr, layout, r0);
                }
            } else {
                assert forall|r: AllocRecord| #[trigger]
                    t1.contains(r) && r.addr == addr implies !(r.layout == layout) by {
                    assert(t.contains(r));
                }
            }
        },
        HeapOp::ChangeDomain { from, to, addr: a, layout: l } => {
            let f = retag_on_change(from, to, a, l);
            assert(t1.len() == t.len());
            assert(forall|i: int| 0 <= i < t.len() ==> t1[i] == f(#[trigger] t[i]));
            assert(records_wf(t1)) by {
                assert forall|i: int, j: int| 0 <= i < j < t1.len() implies (
                #[trigger] t1[i]).addr != (#[trigger] t1[j]).addr by {
                    assert(t[i].addr != t[j].addr);
                }
            }
            if w is Some {
                let r0 = choose|r0: AllocRecord| #[trigger]
                    t.contains(r0) && r0.addr == addr && r0.layout == layout;
                let i0 = choose|i: int| 0 <= i < t.len() && t[i] == r0;
                if a == addr && l == layout && w == Some(from) {
                    assert(r0 == rec_of(from, a, l));
                    assert(t1[i0] == rec_of(to, a, l));
                    assert(t1.contains(rec_of(to, a, l)));
                    lemma_owner_of_witness(t1, addr, layout, rec_of(to, a, l));
                } else {
                    assert(r0 != rec_of(from, a, l));
                    assert(t1[i0] == r0);
                    assert(t1.contains(r0));
                    lemma_owner_of_witness(t1, addr, layout, r0);
                }
            } else {
                assert forall|r: AllocRecord| #[trigger]
                    t1.contains(r) && r.addr == addr implies !(r.layout == layout) by {
                    let i = choose|i: int| 0 <= i < t1.len() && t1[i] == r;
                    assert(r == f(t[i]));
                    assert(r.addr == t[i].addr && r.layout == t[i].layout);
                    if r.layout == layout {
                        assert(t.contains(t[i]));
                    }
                }
            }
        },
        HeapOp::DropDomain { domain_id: d } => {
            let pred = keep_on_drop(d);
            lemma_filter_keeps_wf(t, pred);
            lemma_filter_contains_iff(t, pred);
            if w is Some {
                let r0 = choose|r0: AllocRecord| #[trigger]
                    t.contains(r0) && r0.addr == addr && r0.layout == layout;
                if w == Some(d) {
                    assert forall|r: AllocRecord| #[trigger]
                        t1.contains(r) && r.addr == addr implies !(r.layout == layout) by {
                        assert(t.contains(r) && r.domain_id != d);
                        if r.layout == layout {
                            assert(r == r0);
                        }
                    }
                } else {
                    assert(r0.domain_id != d);
                    lemma_owner_of_witness(t1, addr, layout, r0);
                }
            } else {
                assert forall|r: AllocRecord| #[trigger]
                    t1.contains(r) && r.addr == addr implies !(r.layout == layout) by {
                    assert(t.contains(r));
                }
            }
        },
    }
}

/// A filtered table is a subsequence, so address uniqueness survives.
proof fn lemma_filter_keeps_wf(t: Seq<AllocRecord>, pred: spec_fn(AllocRecord) -> bool)
    requires
        records_wf(t),
    ensures
        records_wf(t.filter(pred)),
    decreases t.len(),
{
    reveal(Seq::filter);
    if t.len() > 0 {
        let dl = t.drop_last();
        assert(records_wf(dl));
        lemma_filter_keeps_wf(dl, pred);
        let fdl = dl.filter(pred);
        if pred(t.last()) {
            assert forall|a: int, b: int|
                0 <= a < b < fdl.push(t.last()).len() implies (#[trigger] fdl.push(t.last())[a]).addr
                != (#[trigger] fdl.push(t.last())[b]).addr by {
                if b < fdl.len() {
                } else {
                    dl.lemma_filter_contains_rev(pred, fdl[a]);
                    let k = choose|k: int| 0 <= k < dl.len() && dl[k] == fdl[a];
                    assert(t[k] == fdl[a]);
                    assert(t[k].addr != t.last().addr);
                }
            }
        }
    }
}

} // verus!
