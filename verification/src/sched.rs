//! Per-CPU cooperative priority scheduler. Threads are named by their arena
//! index and sit in one of sixteen priority buckets; a bucket is drained
//! newest-first. Two whole generations of buckets (active and passive)
//! rotate: new arrivals always join the passive generation, the active one is
//! drained, and the scheduler flips them when the active generation runs dry,
//! which bounds how long any arrival can wait.

use vstd::prelude::*;

verus! {

/// Highest priority a thread can have; priorities run from 0 to this value.
pub const MAX_PRIO: usize = 15;

/// One generation of the run queue: a bucket of thread ids per priority,
/// oldest first within a bucket, plus a cached upper bound on the highest
/// non-empty bucket.
pub struct SchedulerQueue {
    highest: usize,
    prio_queues: Vec<Vec<usize>>,
}

/// The largest priority not above `from` whose bucket in `b` is non-empty,
/// or -1 when every bucket up to `from` is empty.
pub open spec fn highest_nonempty(b: Seq<Seq<usize>>, from: int) -> int
    decreases from + 1,
{
    if from < 0 {
        -1
    } else if b[from].len() > 0 {
        from
    } else {
        highest_nonempty(b, from - 1)
    }
}

/// The priority the next pop comes from: the highest non-empty bucket of the
/// whole generation, or -1 when the generation is empty.
pub open spec fn top_of(b: Seq<Seq<usize>>) -> int {
    highest_nonempty(b, b.len() - 1)
}

/// A generation has one bucket per priority.
pub open spec fn gen_sized(b: Seq<Seq<usize>>) -> bool {
    b.len() == MAX_PRIO + 1
}

/// What one successful pop does to a generation: the newest thread of the
/// highest non-empty bucket leaves.
pub open spec fn gen_popped(b: Seq<Seq<usize>>) -> Seq<Seq<usize>> {
    b.update(top_of(b), b[top_of(b)].drop_last())
}

/// Buckets strictly above `p` are all empty.
pub open spec fn empty_above(b: Seq<Seq<usize>>, p: int) -> bool {
    forall|q: int| p < q < b.len() ==> b[q].len() == 0
}

impl SchedulerQueue {
    /// The sixteen buckets, by priority.
    pub closed spec fn buckets(self) -> Seq<Seq<usize>> {
        self.prio_queues@.map_values(|v: Vec<usize>| v@)
    }

    /// The cached search start: no bucket above it holds a thread.
    pub closed spec fn cached_highest(self) -> usize {
        self.highest
    }

    pub open spec fn wf(self) -> bool {
        &&& gen_sized(self.buckets())
        &&& self.cached_highest() <= MAX_PRIO
        &&& empty_above(self.buckets(), self.cached_highest() as int)
    }

    pub fn new() -> (q: SchedulerQueue)
        ensures
            q.wf(),
            gen_sized(q.buckets()),
            q.cached_highest() == 0,
            forall|p: int| 0 <= p <= MAX_PRIO ==> (#[trigger] q.buckets()[p]).len() == 0,
    {
        let mut prio_queues: Vec<Vec<usize>> = Vec::new();
        let mut i: usize = 0;
        while i < MAX_PRIO + 1
            invariant
                i <= MAX_PRIO + 1,
                prio_queues@.len() == i,
                forall|p: int| 0 <= p < i ==> (#[trigger] prio_queues@[p])@.len() == 0,
            decreases MAX_PRIO + 1 - i,
        {
            prio_queues.push(Vec::new());
            i = i + 1;
        }
        let q = SchedulerQueue { highest: 0, prio_queues };
        proof {
            assert(forall|p: int|
                0 <= p <= MAX_PRIO ==> (#[trigger] q.buckets()[p]).len() == 0);
        }
        q
    }

    /// Push a thread id onto the head of one bucket.
    fn push_thread(&mut self, queue: usize, tid: usize)
        requires
            gen_sized(old(self).buckets()),
            queue <= MAX_PRIO,
        ensures
            final(self).buckets() == old(self).buckets().update(
                queue as int,
                old(self).buckets()[queue as int].push(tid),
            ),
            final(self).cached_highest() == old(self).cached_highest(),
    {
        self.prio_queues[queue].push(tid);
        proof {
            assert(self.buckets() =~= old(self).buckets().update(
                queue as int,
                old(self).buckets()[queue as int].push(tid),
            ));
        }
    }

    /// Pop the newest thread of one bucket, if the bucket holds any.
    pub fn pop_thread(&mut self, queue: usize) -> (r: Option<usize>)
        requires
            gen_sized(old(self).buckets()),
            queue <= MAX_PRIO,
        ensures
            final(self).cached_highest() == old(self).cached_highest(),
            gen_sized(final(self).buckets()),
            old(self).buckets()[queue as int].len() == 0 ==> r is None && final(self).buckets()
                == old(self).buckets(),
            old(self).buckets()[queue as int].len() > 0 ==> r == Some(
                old(self).buckets()[queue as int].last(),
            ) && final(self).buckets() == old(self).buckets().update(
                queue as int,
                old(self).buckets()[queue as int].drop_last(),
            ),
            old(self).wf() ==> final(self).wf(),
    {
        let r = self.prio_queues[queue].pop();
        proof {
            if old(self).buckets()[queue as int].len() == 0 {
                assert(self.buckets() =~= old(self).buckets());
            } else {
                assert(self.buckets() =~= old(self).buckets().update(
                    queue as int,
                    old(self).buckets()[queue as int].drop_last(),
                ));
            }
        }
        r
    }

    /// Add a thread to the bucket matching its priority, raising the cached
    /// highest-bucket index if the arrival sits above it. The index is never
    /// lowered here.
    pub fn put_thread(&mut self, tid: usize, prio: usize)
        requires
            old(self).wf(),
            prio <= MAX_PRIO,
        ensures
            final(self).wf(),
            final(self).buckets() == old(self).buckets().update(
                prio as int,
                old(self).buckets()[prio as int].push(tid),
            ),
            final(self).cached_highest() == if prio > old(self).cached_highest() {
                prio
            } else {
                old(self).cached_highest()
            },
    {
        self.push_thread(prio, tid);
        if self.highest < prio {
            self.highest = prio;
        }
    }

    /// Pop the thread with the highest priority in this generation: search
    /// downward from the cached index and take the newest thread of the first
    /// non-empty bucket. Returns `None` exactly when the generation is empty.
    ///
    /// The search direction is a deliberate decision, not an accident: with
    /// an upward, never-reset search the index would walk past the last
    /// bucket once a raised bucket empties, and any thread left below the
    /// raised index would be stranded forever. Searching downward keeps the
    /// cached index a mere upper bound — enqueues raise it, this search may
    /// lower it — and makes the priority-ordering guarantee hold.
    pub fn get_highest(&mut self) -> (r: Option<usize>)
        requires
            old(self).wf(),
        ensures
            final(self).wf(),
            top_of(old(self).buckets()) == -1 ==> r is None && final(self).buckets() == old(
                self,
            ).buckets(),
            top_of(old(self).buckets()) >= 0 ==> r == Some(
                old(self).buckets()[top_of(old(self).buckets())].last(),
            ) && final(self).buckets() == gen_popped(old(self).buckets()),
    {
        proof {
            lemma_highest_nonempty_skip(
                old(self).buckets(),
                MAX_PRIO as int,
                old(self).cached_highest() as int,
            );
        }
        loop
            invariant
                self.wf(),
                self.buckets() == old(self).buckets(),
                highest_nonempty(self.buckets(), self.cached_highest() as int) == top_of(
                    old(self).buckets(),
                ),
            decreases self.cached_highest(),
        {
            let h = self.highest;
            let popped = self.pop_thread(h);
            match popped {
                Some(t) => {
                    proof {
                        assert(old(self).buckets()[h as int].len() > 0);
                        assert(highest_nonempty(old(self).buckets(), h as int) == h as int);
                    }
                    return Some(t);
                },
                None => {
                    proof {
                        assert(self.buckets()[h as int].len() == 0);
                        assert(highest_nonempty(self.buckets(), h as int) == highest_nonempty(
                            self.buckets(),
                            h as int - 1,
                        ));
                    }
                    if self.highest == 0 {
                        return None;
                    }
                    self.highest = self.highest - 1;
                    proof {
                        assert(empty_above(self.buckets(), self.cached_highest() as int)) by {
                            assert(forall|q: int|
                                (h as int) < q < self.buckets().len() ==> (
                                #[trigger] self.buckets()[q]).len() == 0);
                        }
                    }
                },
            }
        }
    }
}

/// What `put_thread` does to a generation: the arrival joins the bucket of
/// its priority as the newest thread.
pub open spec fn gen_put(b: Seq<Seq<usize>>, tid: usize, prio: usize) -> Seq<Seq<usize>> {
    b.update(prio as int, b[prio as int].push(tid))
}

/// What one `next` call does to the scheduler: drain the active generation if
/// it holds a thread; otherwise flip and drain the other; otherwise report
/// none. The result triple is (generation being drained, generation being
/// filled, thread returned).
pub open spec fn sched_next_spec(d: Seq<Seq<usize>>, f: Seq<Seq<usize>>) -> (
    Seq<Seq<usize>>,
    Seq<Seq<usize>>,
    Option<usize>,
) {
    if top_of(d) >= 0 {
        (gen_popped(d), f, Some(d[top_of(d)].last()))
    } else if top_of(f) >= 0 {
        (gen_popped(f), d, Some(f[top_of(f)].last()))
    } else {
        (f, d, None)
    }
}

/// The per-CPU scheduler: two generations of priority buckets. The one
/// selected by `active` is drained; the other absorbs arrivals; `next` flips
/// them when the drained one runs dry.
pub struct Scheduler {
    active: bool,
    active_queue: SchedulerQueue,
    passive_queue: SchedulerQueue,
}

impl Scheduler {
    /// The generation currently being drained.
    pub closed spec fn drain_gen(self) -> Seq<Seq<usize>> {
        if self.active {
            self.active_queue.buckets()
        } else {
            self.passive_queue.buckets()
        }
    }

    /// The generation currently absorbing arrivals.
    pub closed spec fn fill_gen(self) -> Seq<Seq<usize>> {
        if self.active {
            self.passive_queue.buckets()
        } else {
            self.active_queue.buckets()
        }
    }

    pub closed spec fn wf(self) -> bool {
        self.active_queue.wf() && self.passive_queue.wf()
    }

    pub fn new() -> (s: Scheduler)
        ensures
            s.wf(),
            gen_sized(s.drain_gen()),
            gen_sized(s.fill_gen()),
            forall|p: int| 0 <= p <= MAX_PRIO ==> (#[trigger] s.drain_gen()[p]).len() == 0,
            forall|p: int| 0 <= p <= MAX_PRIO ==> (#[trigger] s.fill_gen()[p]).len() == 0,
    {
        Scheduler {
            active: true,
            active_queue: SchedulerQueue::new(),
            passive_queue: SchedulerQueue::new(),
        }
    }

    /// Enqueue a thread. Arrivals never join the generation being drained:
    /// they go to the passive one and wait for the flip.
    pub fn put_thread(&mut self, tid: usize, prio: usize)
        requires
            old(self).wf(),
            prio <= MAX_PRIO,
        ensures
            final(self).wf(),
            final(self).fill_gen() == gen_put(old(self).fill_gen(), tid, prio),
            final(self).drain_gen() == old(self).drain_gen(),
    {
        if !self.active {
            self.active_queue.put_thread(tid, prio);
        } else {
            self.passive_queue.put_thread(tid, prio);
        }
    }

    /// Pop the highest-priority thread of the generation being drained.
    pub fn get_next(&mut self) -> (r: Option<usize>)
        requires
            old(self).wf(),
        ensures
            final(self).wf(),
            final(self).fill_gen() == old(self).fill_gen(),
            top_of(old(self).drain_gen()) == -1 ==> r is None && final(self).drain_gen() == old(
                self,
            ).drain_gen(),
            top_of(old(self).drain_gen()) >= 0 ==> r == Some(
                old(self).drain_gen()[top_of(old(self).drain_gen())].last(),
            ) && final(self).drain_gen() == gen_popped(old(self).drain_gen()),
    {
        if self.active {
            self.active_queue.get_highest()
        } else {
            self.passive_queue.get_highest()
        }
    }

    /// Make the active generation passive and the passive one active.
    pub fn flip_queues(&mut self)
        requires
            old(self).wf(),
        ensures
            final(self).wf(),
            final(self).drain_gen() == old(self).fill_gen(),
            final(self).fill_gen() == old(self).drain_gen(),
    {
        if self.active {
            self.active = false;
        } else {
            self.active = true;
        }
    }

    /// Pick the next thread to run: drain the active generation, and when it
    /// is empty flip generations once and retry. Returns `None` only when
    /// both generations are empty, leaving the flip in place.
    pub fn next(&mut self) -> (r: Option<usize>)
        requires
            old(self).wf(),
        ensures
            final(self).wf(),
            (final(self).drain_gen(), final(self).fill_gen(), r) == sched_next_spec(
                old(self).drain_gen(),
                old(self).fill_gen(),
            ),
    {
        proof {
            lemma_highest_nonempty_props(old(self).drain_gen(), old(self).drain_gen().len() - 1);
            lemma_highest_nonempty_props(old(self).fill_gen(), old(self).fill_gen().len() - 1);
        }
        let first = self.get_next();
        if let Some(t) = first {
            return Some(t);
        }
        self.flip_queues();
        let second = self.get_next();
        if let Some(t) = second {
            return Some(t);
        }
        None
    }
}

/// Total number of threads queued in a generation.
pub open spec fn total_len(b: Seq<Seq<usize>>) -> nat
    decreases b.len(),
{
    if b.len() == 0 {
        0
    } else {
        total_len(b.drop_last()) + b.last().len()
    }
}

/// Whether thread `tid` is queued somewhere in generation `b`.
pub open spec fn in_gen(b: Seq<Seq<usize>>, tid: usize) -> bool {
    exists|p: int, i: int| 0 <= p < b.len() && 0 <= i < b[p].len() && #[trigger] b[p][i] == tid
}

/// One call against the scheduler: an enqueue or a scheduling decision.
pub enum SchedOp {
    Put { tid: usize, prio: usize },
    Next,
}

/// Every enqueue in the history carries a legal priority.
pub open spec fn ops_ok(ops: Seq<SchedOp>) -> bool {
    forall|k: int|
        0 <= k < ops.len() ==> match #[trigger] ops[k] {
            SchedOp::Put { prio, .. } => prio <= MAX_PRIO,
            SchedOp::Next => true,
        }
}

/// How many scheduling decisions a history holds.
pub open spec fn n_nexts(ops: Seq<SchedOp>) -> nat
    decreases ops.len(),
{
    if ops.len() == 0 {
        0
    } else {
        (match ops[0] {
            SchedOp::Next => 1nat,
            SchedOp::Put { .. } => 0nat,
        }) + n_nexts(ops.drop_first())
    }
}

/// How many enqueues a history holds.
pub open spec fn n_puts(ops: Seq<SchedOp>) -> nat
    decreases ops.len(),
{
    if ops.len() == 0 {
        0
    } else {
        (match ops[0] {
            SchedOp::Put { .. } => 1nat,
            SchedOp::Next => 0nat,
        }) + n_puts(ops.drop_first())
    }
}

/// The thread ids handed out by the `Next` calls of a history, in order,
/// starting from drained generation `d` and filling generation `f`. Each arm
/// steps exactly as the ensures of `Scheduler::put_thread` and
/// `Scheduler::next` say.
pub open spec fn returned_ids(d: Seq<Seq<usize>>, f: Seq<Seq<usize>>, ops: Seq<SchedOp>) -> Seq<
    usize,
>
    decreases ops.len(),
{
    if ops.len() == 0 {
        Seq::empty()
    } else {
        match ops[0] {
            SchedOp::Put { tid, prio } => returned_ids(d, gen_put(f, tid, prio), ops.drop_first()),
            SchedOp::Next => {
                let step = sched_next_spec(d, f);
                match step.2 {
                    Some(t) => seq![t] + returned_ids(step.0, step.1, ops.drop_first()),
                    None => returned_ids(step.0, step.1, ops.drop_first()),
                }
            },
        }
    }
}

/// Skipping empty buckets does not change where the downward search lands.
proof fn lemma_highest_nonempty_skip(b: Seq<Seq<usize>>, from: int, to: int)
    requires
        -1 <= to <= from < b.len(),
        forall|q: int| to < q <= from ==> b[q].len() == 0,
    ensures
        highest_nonempty(b, from) == highest_nonempty(b, to),
    decreases from - to,
{
    if to < from {
        assert(b[from].len() == 0);
        lemma_highest_nonempty_skip(b, from - 1, to);
    }
}

/// Facts about the downward search: it lands on a non-empty bucket with
/// nothing above it, or reports the whole range empty.
pub proof fn lemma_highest_nonempty_props(b: Seq<Seq<usize>>, from: int)
    requires
        -1 <= from < b.len(),
    ensures
        -1 <= highest_nonempty(b, from) <= from,
        highest_nonempty(b, from) >= 0 ==> b[highest_nonempty(b, from)].len() > 0,
        forall|q: int| highest_nonempty(b, from) < q <= from ==> b[q].len() == 0,
    decreases from + 1,
{
    if from >= 0 && b[from].len() == 0 {
        lemma_highest_nonempty_props(b, from - 1);
    }
}

/// The downward search never lands below a non-empty bucket.
proof fn lemma_highest_nonempty_lb(b: Seq<Seq<usize>>, from: int, p: int)
    requires
        0 <= p <= from < b.len(),
        b[p].len() > 0,
    ensures
        highest_nonempty(b, from) >= p,
    decreases from + 1,
{
    if b[from].len() == 0 {
        lemma_highest_nonempty_lb(b, from - 1, p);
    }
}

/// Replacing one bucket moves the total count by the difference.
proof fn lemma_total_len_update(b: Seq<Seq<usize>>, p: int, v: Seq<usize>)
    requires
        0 <= p < b.len(),
    ensures
        total_len(b.update(p, v)) + b[p].len() == total_len(b) + v.len(),
    decreases b.len(),
{
    let b1 = b.update(p, v);
    if p == b.len() - 1 {
        assert(b1.drop_last() =~= b.drop_last());
        assert(b1.last() == v);
    } else {
        assert(b1.drop_last() =~= b.drop_last().update(p, v));
        assert(b1.last() == b.last());
        lemma_total_len_update(b.drop_last(), p, v);
    }
}

/// A generation counts at least each of its buckets.
proof fn lemma_total_len_lb(b: Seq<Seq<usize>>, p: int)
    requires
        0 <= p < b.len(),
    ensures
        total_len(b) >= b[p].len(),
    decreases b.len(),
{
    if p < b.len() - 1 {
        assert(b.drop_last()[p] == b[p]);
        lemma_total_len_lb(b.drop_last(), p);
    }
}

/// A queued thread makes the generation non-empty: the search finds some
/// bucket, and the count is positive.
proof fn lemma_in_gen_nonempty(b: Seq<Seq<usize>>, tid: usize)
    requires
        in_gen(b, tid),
    ensures
        top_of(b) >= 0,
        total_len(b) > 0,
{
    let (p, i) = choose|p: int, i: int|
        0 <= p < b.len() && 0 <= i < b[p].len() && #[trigger] b[p][i] == tid;
    lemma_highest_nonempty_lb(b, b.len() - 1, p);
    lemma_highest_nonempty_props(b, b.len() - 1);
    lemma_total_len_lb(b, p);
}

/// A queued thread other than the one being popped stays queued.
proof fn lemma_pop_keeps_member(b: Seq<Seq<usize>>, tid: usize)
    requires
        in_gen(b, tid),
        top_of(b) >= 0,
        tid != b[top_of(b)].last(),
    ensures
        in_gen(gen_popped(b), tid),
{
    lemma_highest_nonempty_props(b, b.len() - 1);
    let top = top_of(b);
    let b1 = gen_popped(b);
    let (p, i) = choose|p: int, i: int|
        0 <= p < b.len() && 0 <= i < b[p].len() && #[trigger] b[p][i] == tid;
    if p == top {
        assert(i < b[p].len() - 1);
        assert(b1[p][i] == tid);
    } else {
        assert(b1[p][i] == tid);
    }
}

/// The trace of one whole generation drained bucket by bucket: pairs of
/// (priority, thread id) in the order `get_highest` hands them out.
pub open spec fn drain_all(b: Seq<Seq<usize>>) -> Seq<(int, usize)>
    decreases total_len(b),
    via drain_all_decreases
{
    if top_of(b) < 0 {
        Seq::empty()
    } else {
        seq![(top_of(b), b[top_of(b)].last())] + drain_all(gen_popped(b))
    }
}

#[via_fn]
proof fn drain_all_decreases(b: Seq<Seq<usize>>) {
    if top_of(b) >= 0 {
        lemma_highest_nonempty_props(b, b.len() - 1);
        lemma_total_len_update(b, top_of(b), b[top_of(b)].drop_last());
    }
}

/// Selector for drain entries of one priority.
pub open spec fn at_prio(p: int) -> spec_fn((int, usize)) -> bool {
    |e: (int, usize)| e.0 == p
}

/// The thread-id part of a drain entry.
pub open spec fn tid_part() -> spec_fn((int, usize)) -> usize {
    |e: (int, usize)| e.1
}

/// Popping never raises the top priority of a generation.
proof fn lemma_top_after_pop(b: Seq<Seq<usize>>)
    requires
        top_of(b) >= 0,
    ensures
        top_of(gen_popped(b)) <= top_of(b),
{
    lemma_highest_nonempty_props(b, b.len() - 1);
    let top = top_of(b);
    let b1 = gen_popped(b);
    assert(forall|q: int| top < q < b1.len() ==> b1[q].len() == 0);
    lemma_highest_nonempty_skip(b1, b1.len() - 1, top);
    lemma_highest_nonempty_props(b1, top);
}

/// Everything a drain returns sits at or below the generation's top priority.
proof fn lemma_drain_bounded(b: Seq<Seq<usize>>)
    ensures
        forall|k: int|
            0 <= k < drain_all(b).len() ==> (#[trigger] drain_all(b)[k]).0 <= top_of(b),
    decreases total_len(b),
{
    if top_of(b) >= 0 {
        lemma_highest_nonempty_props(b, b.len() - 1);
        lemma_total_len_update(b, top_of(b), b[top_of(b)].drop_last());
        let b1 = gen_popped(b);
        lemma_drain_bounded(b1);
        lemma_top_after_pop(b);
        let e = (top_of(b), b[top_of(b)].last());
        assert(drain_all(b) == seq![e] + drain_all(b1));
        assert forall|k: int|
            0 <= k < drain_all(b).len() implies (#[trigger] drain_all(b)[k]).0 <= top_of(b) by {
            if k > 0 {
                assert(drain_all(b)[k] == drain_all(b1)[k - 1]);
            }
        }
    }
}

/// Priority ordering. Draining one generation returns priorities in
/// non-increasing order: every thread queued at priority p comes out before
/// any thread of strictly lower priority queued beside it.
pub proof fn lemma_drain_priority_ordered(b: Seq<Seq<usize>>)
    ensures
        forall|i: int, j: int|
            0 <= i < j < drain_all(b).len() ==> (#[trigger] drain_all(b)[i]).0 >= (
            #[trigger] drain_all(b)[j]).0,
    decreases total_len(b),
{
    if top_of(b) >= 0 {
        lemma_highest_nonempty_props(b, b.len() - 1);
        lemma_total_len_update(b, top_of(b), b[top_of(b)].drop_last());
        let b1 = gen_popped(b);
        lemma_drain_priority_ordered(b1);
        lemma_drain_bounded(b1);
        lemma_top_after_pop(b);
        let e = (top_of(b), b[top_of(b)].last());
        assert(drain_all(b) == seq![e] + drain_all(b1));
        assert forall|i: int, j: int|
            0 <= i < j < drain_all(b).len() implies (#[trigger] drain_all(b)[i]).0 >= (
        #[trigger] drain_all(b)[j]).0 by {
            assert(drain_all(b)[j] == drain_all(b1)[j - 1]);
            if i > 0 {
                assert(drain_all(b)[i] == drain_all(b1)[i - 1]);
            }
        }
    }
}

/// Same-priority order. Restricted to any one priority, a drain hands the
/// bucket's threads out newest first: the exact reverse of enqueue order.
pub proof fn lemma_drain_lifo(b: Seq<Seq<usize>>, p: int)
    requires
        0 <= p < b.len(),
    ensures
        drain_all(b).filter(at_prio(p)).map_values(tid_part()) == b[p].reverse(),
    decreases total_len(b),
{
    reveal(Seq::filter);
    let pred = at_prio(p);
    let pick = tid_part();
    if top_of(b) < 0 {
        lemma_highest_nonempty_props(b, b.len() - 1);
        assert(b[p].len() == 0);
        assert(drain_all(b).filter(pred).map_values(pick) =~= b[p].reverse());
    } else {
        lemma_highest_nonempty_props(b, b.len() - 1);
        lemma_total_len_update(b, top_of(b), b[top_of(b)].drop_last());
        let b1 = gen_popped(b);
        lemma_drain_lifo(b1, p);
        let e = (top_of(b), b[top_of(b)].last());
        assert(drain_all(b) == seq![e] + drain_all(b1));
        Seq::filter_distributes_over_add(seq![e], drain_all(b1), pred);
        let fr = drain_all(b1).filter(pred);
        if top_of(b) == p {
            assert(seq![e].filter(pred) =~= seq![e]) by {
                assert(seq![e].drop_last() =~= Seq::<(int, usize)>::empty());
            }
            assert((seq![e] + fr).map_values(pick) =~= seq![e.1] + fr.map_values(pick));
            assert(b1[p] == b[p].drop_last());
            assert(b[p].reverse() =~= seq![b[p].last()] + b[p].drop_last().reverse());
        } else {
            assert(!pred(e));
            assert(seq![e].drop_last() =~= Seq::<(int, usize)>::empty());
            assert(Seq::<(int, usize)>::empty().filter(pred) =~= Seq::<(int, usize)>::empty());
            assert(seq![e].last() == e);
            assert(seq![e].filter(pred) =~= Seq::<(int, usize)>::empty());
            assert(seq![e].filter(pred) + fr =~= fr);
            assert(b1[p] == b[p]);
        }
    }
}

/// Dropping the first call of a history keeps every later enqueue legal.
proof fn lemma_ops_ok_rest(ops: Seq<SchedOp>)
    requires
        ops.len() > 0,
        ops_ok(ops),
    ensures
        ops_ok(ops.drop_first()),
{
    assert forall|k: int|
        0 <= k < ops.drop_first().len() implies match #[trigger] ops.drop_first()[k] {
        SchedOp::Put { prio, .. } => prio <= MAX_PRIO,
        SchedOp::Next => true,
    } by {
        assert(ops.drop_first()[k] == ops[k + 1]);
    }
}

/// Progress of the drained generation: a thread queued in the generation
/// being drained is handed out within `total_len(d)` scheduling decisions,
/// however many arrivals are enqueued meanwhile — arrivals never join the
/// generation being drained.
pub proof fn lemma_drain_generation_progress(
    d: Seq<Seq<usize>>,
    f: Seq<Seq<usize>>,
    ops: Seq<SchedOp>,
    tid: usize,
)
    requires
        gen_sized(d),
        gen_sized(f),
        ops_ok(ops),
        in_gen(d, tid),
        n_nexts(ops) >= total_len(d),
    ensures
        returned_ids(d, f, ops).contains(tid),
    decreases ops.len(),
{
    lemma_in_gen_nonempty(d, tid);
    lemma_highest_nonempty_props(d, d.len() - 1);
    if ops.len() == 0 {
        assert(false);
    } else {
        lemma_ops_ok_rest(ops);
        let rest_ops = ops.drop_first();
        match ops[0] {
            SchedOp::Put { tid: u, prio } => {
                lemma_drain_generation_progress(d, gen_put(f, u, prio), rest_ops, tid);
            },
            SchedOp::Next => {
                let x = d[top_of(d)].last();
                lemma_total_len_update(d, top_of(d), d[top_of(d)].drop_last());
                if x == tid {
                    let all = returned_ids(d, f, ops);
                    assert(all[0] == tid);
                    assert(all.contains(tid));
                } else {
                    lemma_pop_keeps_member(d, tid);
                    lemma_drain_generation_progress(gen_popped(d), f, rest_ops, tid);
                    let rest = returned_ids(gen_popped(d), f, rest_ops);
                    let k = choose|k: int| 0 <= k < rest.len() && rest[k] == tid;
                    assert(returned_ids(d, f, ops)[k + 1] == tid);
                    assert(returned_ids(d, f, ops).contains(tid));
                }
            },
        }
    }
}

/// Anti-starvation. A thread enqueued into the passive generation while the
/// active one is non-empty is handed out within one generation flip: once the
/// active generation (at most `total_len(d)` decisions) drains, the scheduler
/// flips, and the thread's own generation — grown only by the arrivals
/// enqueued before that flip — drains in turn. The decision budget
/// `total_len(d) + total_len(f) + n_puts(ops)` therefore always suffices,
/// whatever is enqueued meanwhile.
pub proof fn lemma_anti_starvation(
    d: Seq<Seq<usize>>,
    f: Seq<Seq<usize>>,
    ops: Seq<SchedOp>,
    tid: usize,
)
    requires
        gen_sized(d),
        gen_sized(f),
        ops_ok(ops),
        in_gen(f, tid),
        n_nexts(ops) >= total_len(d) + total_len(f) + n_puts(ops),
    ensures
        returned_ids(d, f, ops).contains(tid),
    decreases ops.len(),
{
    lemma_in_gen_nonempty(f, tid);
    lemma_highest_nonempty_props(d, d.len() - 1);
    lemma_highest_nonempty_props(f, f.len() - 1);
    if ops.len() == 0 {
        assert(false);
    } else {
        lemma_ops_ok_rest(ops);
        let rest_ops = ops.drop_first();
        match ops[0] {
            SchedOp::Put { tid: u, prio } => {
                let f1 = gen_put(f, u, prio);
                lemma_total_len_update(f, prio as int, f[prio as int].push(u));
                assert(in_gen(f1, tid)) by {
                    let (p, i) = choose|p: int, i: int|
                        0 <= p < f.len() && 0 <= i < f[p].len() && #[trigger] f[p][i] == tid;
                    assert(f1[p][i] == tid);
                }
                lemma_anti_starvation(d, f1, rest_ops, tid);
            },
            SchedOp::Next => {
                if top_of(d) >= 0 {
                    lemma_total_len_update(d, top_of(d), d[top_of(d)].drop_last());
                    lemma_anti_starvation(gen_popped(d), f, rest_ops, tid);
                    let rest = returned_ids(gen_popped(d), f, rest_ops);
                    let k = choose|k: int| 0 <= k < rest.len() && rest[k] == tid;
                    assert(returned_ids(d, f, ops)[k + 1] == tid);
                    assert(returned_ids(d, f, ops).contains(tid));
                } else {
                    let y = f[top_of(f)].last();
                    lemma_total_len_update(f, top_of(f), f[top_of(f)].drop_last());
                    if y == tid {
                        let all = returned_ids(d, f, ops);
                        assert(all[0] == tid);
                        assert(all.contains(tid));
                    } else {
                        lemma_pop_keeps_member(f, tid);
                        lemma_drain_generation_progress(gen_popped(f), d, rest_ops, tid);
                        let rest = returned_ids(gen_popped(f), d, rest_ops);
                        let k = choose|k: int| 0 <= k < rest.len() && rest[k] == tid;
                        assert(returned_ids(d, f, ops)[k + 1] == tid);
                        assert(returned_ids(d, f, ops).contains(tid));
                    }
                }
            },
        }
    }
}

/// Every thread id queued in the generation is below `n` — the ids name slots
/// of a thread arena of length `n`.
pub open spec fn gen_ids_below(b: Seq<Seq<usize>>, n: nat) -> bool {
    forall|p: int, i: int|
        0 <= p < b.len() && 0 <= i < b[p].len() ==> #[trigger] b[p][i] < n
}

/// Enqueueing an id below the bound keeps the bound.
pub proof fn lemma_ids_below_put(b: Seq<Seq<usize>>, tid: usize, prio: usize, n: nat)
    requires
        gen_ids_below(b, n),
        tid < n,
        prio < b.len(),
    ensures
        gen_ids_below(gen_put(b, tid, prio), n),
{
    let b1 = gen_put(b, tid, prio);
    assert forall|p: int, i: int|
        0 <= p < b1.len() && 0 <= i < b1[p].len() implies #[trigger] b1[p][i] < n by {
        if p == prio as int && i == b[p].len() {
        } else {
            assert(b1[p][i] == b[p][i]);
        }
    }
}

/// Popping keeps the bound, and the popped id obeys it too.
pub proof fn lemma_ids_below_popped(b: Seq<Seq<usize>>, n: nat)
    requires
        gen_ids_below(b, n),
        top_of(b) >= 0,
    ensures
        gen_ids_below(gen_popped(b), n),
        b[top_of(b)].last() < n,
{
    lemma_highest_nonempty_props(b, b.len() - 1);
    let b1 = gen_popped(b);
    assert(b[top_of(b)][b[top_of(b)].len() - 1] < n);
    assert forall|p: int, i: int|
        0 <= p < b1.len() && 0 <= i < b1[p].len() implies #[trigger] b1[p][i] < n by {
        assert(b1[p][i] == b[p][i]);
    }
}

/// An empty generation stays empty: scheduling decisions against two empty
/// generations return nothing.
proof fn lemma_next_on_empty(d: Seq<Seq<usize>>, f: Seq<Seq<usize>>, ops: Seq<SchedOp>)
    requires
        top_of(d) == -1,
        top_of(f) == -1,
        forall|k: int| 0 <= k < ops.len() ==> ops[k] is Next,
    ensures
        returned_ids(d, f, ops) == Seq::<usize>::empty(),
    decreases ops.len(),
{
    if ops.len() > 0 {
        assert(ops[0] is Next);
        assert forall|k: int| 0 <= k < ops.drop_first().len() implies ops.drop_first()[k]
            is Next by {
            assert(ops.drop_first()[k] == ops[k + 1]);
        }
        lemma_next_on_empty(f, d, ops.drop_first());
    }
}

/// Draining via `next`: once the active generation is empty, a long enough
/// run of `next` calls hands out exactly the drain of the other generation,
/// in drain order. Together with `lemma_drain_priority_ordered` and
/// `lemma_drain_lifo` this pins the order in which enqueued threads come back
/// out of the scheduler: by falling priority, and newest first within one
/// priority.
pub proof fn lemma_next_runs_drain_generation(
    d: Seq<Seq<usize>>,
    f: Seq<Seq<usize>>,
    ops: Seq<SchedOp>,
)
    requires
        top_of(d) == -1,
        forall|k: int| 0 <= k < ops.len() ==> ops[k] is Next,
        ops.len() >= total_len(f),
    ensures
        returned_ids(d, f, ops) == drain_all(f).map_values(tid_part()),
{
    lemma_highest_nonempty_props(f, f.len() - 1);
    if top_of(f) == -1 {
        lemma_next_on_empty(d, f, ops);
        assert(drain_all(f).map_values(tid_part()) =~= Seq::<usize>::empty());
    } else {
        let top = top_of(f);
        let y = f[top].last();
        lemma_total_len_update(f, top, f[top].drop_last());
        assert(total_len(f) > 0) by {
            lemma_total_len_lb(f, top);
        }
        assert(ops.len() > 0);
        assert(ops[0] is Next);
        assert forall|k: int| 0 <= k < ops.drop_first().len() implies ops.drop_first()[k]
            is Next by {
            assert(ops.drop_first()[k] == ops[k + 1]);
        }
        lemma_drain_phase(gen_popped(f), d, ops.drop_first());
        let rest = returned_ids(gen_popped(f), d, ops.drop_first());
        assert(returned_ids(d, f, ops) == seq![y] + rest);
        assert(drain_all(f) == seq![(top, y)] + drain_all(gen_popped(f)));
        assert(returned_ids(d, f, ops) =~= drain_all(f).map_values(tid_part()));
    }
}

/// While the passive generation is empty, scheduling decisions hand out
/// exactly the drain of the active one.
proof fn lemma_drain_phase(d: Seq<Seq<usize>>, f: Seq<Seq<usize>>, ops: Seq<SchedOp>)
    requires
        top_of(f) == -1,
        forall|k: int| 0 <= k < ops.len() ==> ops[k] is Next,
        ops.len() >= total_len(d),
    ensures
        returned_ids(d, f, ops) == drain_all(d).map_values(tid_part()),
    decreases ops.len(),
{
    lemma_highest_nonempty_props(d, d.len() - 1);
    if top_of(d) == -1 {
        lemma_next_on_empty(d, f, ops);
        assert(drain_all(d).map_values(tid_part()) =~= Seq::<usize>::empty());
    } else {
        let top = top_of(d);
        let y = d[top].last();
        lemma_total_len_update(d, top, d[top].drop_last());
        assert(total_len(d) > 0) by {
            lemma_total_len_lb(d, top);
        }
        assert(ops.len() > 0);
        assert(ops[0] is Next);
        assert forall|k: int| 0 <= k < ops.drop_first().len() implies ops.drop_first()[k]
            is Next by {
            assert(ops.drop_first()[k] == ops[k + 1]);
        }
        lemma_drain_phase(gen_popped(d), f, ops.drop_first());
        let rest = returned_ids(gen_popped(d), f, ops.drop_first());
        assert(returned_ids(d, f, ops) == seq![y] + rest);
        assert(drain_all(d) == seq![(top, y)] + drain_all(gen_popped(d)));
        assert(returned_ids(d, f, ops) =~= drain_all(d).map_values(tid_part()));
    }
}

} // verus!
