//! Per-CPU interrupt wait queues: one list of parked threads per interrupt
//! number, kept apart from the scheduler's run queues. Parking records the
//! calling thread under its interrupt number; the interrupt handler's signal
//! drains the whole list, marks every thread found Runnable and hands it back
//! to the scheduler. A thread parked on one CPU is only woken by a signal
//! delivered on that CPU.

use vstd::prelude::*;

verus! {

use crate::sched::{gen_put, MAX_PRIO, lemma_ids_below_put};
use crate::thread::{Cpu, Thread, ThreadState};

/// Number of interrupt vectors, and so of wait queues, per CPU.
pub const MAX_INT: usize = 256;

/// The wait queues themselves: per interrupt number, the parked thread ids,
/// oldest first.
pub struct InterruptWaitQueues {
    queues: Vec<Vec<usize>>,
}

impl InterruptWaitQueues {
    /// The parked thread ids, by interrupt number, oldest first.
    pub closed spec fn view(self) -> Seq<Seq<usize>> {
        self.queues@.map_values(|v: Vec<usize>| v@)
    }

    pub open spec fn wf(self) -> bool {
        self@.len() == MAX_INT
    }

    /// Every parked id names a slot of a thread arena of length `n`.
    pub open spec fn ids_below(self, n: nat) -> bool {
        forall|q: int, i: int|
            0 <= q < self@.len() && 0 <= i < self@[q].len() ==> #[trigger] self@[q][i] < n
    }

    pub fn new() -> (w: InterruptWaitQueues)
        ensures
            w.wf(),
            forall|q: int| 0 <= q < MAX_INT ==> (#[trigger] w@[q]).len() == 0,
            forall|n: nat| w.ids_below(n),
    {
        let mut queues: Vec<Vec<usize>> = Vec::new();
        let mut i: usize = 0;
        while i < MAX_INT
            invariant
                i <= MAX_INT,
                queues@.len() == i,
                forall|q: int| 0 <= q < i ==> (#[trigger] queues@[q])@.len() == 0,
            decreases MAX_INT - i,
        {
            queues.push(Vec::new());
            i = i + 1;
        }
        let w = InterruptWaitQueues { queues };
        proof {
            assert(forall|q: int| 0 <= q < MAX_INT ==> (#[trigger] w@[q]).len() == 0);
        }
        w
    }

    /// Park one thread id on the list for `queue`, as its newest entry.
    pub fn add_thread(&mut self, queue: usize, tid: usize)
        requires
            old(self).wf(),
            queue < MAX_INT,
        ensures
            final(self).wf(),
            final(self)@ == old(self)@.update(queue as int, old(self)@[queue as int].push(tid)),
    {
        self.queues[queue].push(tid);
        proof {
            assert(self@ =~= old(self)@.update(
                queue as int,
                old(self)@[queue as int].push(tid),
            ));
        }
    }

    /// Take the whole list for `queue`, newest first, leaving it empty.
    fn take_all(&mut self, queue: usize) -> (drained: Vec<usize>)
        requires
            old(self).wf(),
            queue < MAX_INT,
        ensures
            final(self).wf(),
            drained@ == old(self)@[queue as int].reverse(),
            final(self)@ == old(self)@.update(queue as int, Seq::<usize>::empty()),
    {
        let ghost q0 = self@[queue as int];
        let mut drained: Vec<usize> = Vec::new();
        proof {
            assert(q0.subrange(0, q0.len() as int) =~= q0);
            assert(old(self)@.update(queue as int, q0.subrange(0, q0.len() as int)) =~~= old(
                self,
            )@);
        }
        loop
            invariant
                self.wf(),
                old(self).wf(),
                queue < MAX_INT,
                q0 == old(self)@[queue as int],
                drained@.len() <= q0.len(),
                self@ == old(self)@.update(
                    queue as int,
                    q0.subrange(0, q0.len() - drained@.len()),
                ),
                forall|k: int| 0 <= k < drained@.len() ==> drained@[k] == q0[q0.len() - 1 - k],
            decreases q0.len() - drained@.len(),
        {
            let ghost dlen = drained@.len() as int;
            let ghost pre_q = self.queues@;
            let ghost pre_view = self@;
            proof {
                assert(self@[queue as int] == q0.subrange(0, q0.len() - dlen));
            }
            let next = self.queues[queue].pop();
            match next {
                Some(tid) => {
                    drained.push(tid);
                    proof {
                        assert(q0.subrange(0, q0.len() - dlen).drop_last() =~= q0.subrange(
                            0,
                            q0.len() - dlen - 1,
                        ));
                        assert(self@[queue as int] == q0.subrange(0, q0.len() - dlen).drop_last());
                        assert forall|q: int|
                            0 <= q < MAX_INT && q != queue as int implies #[trigger] self@[q]
                            == old(self)@[q] by {
                            assert(self.queues@[q] == pre_q[q]);
                            assert(self@[q] == pre_view[q]);
                            assert(pre_view[q] == old(self)@[q]);
                        }
                        assert(self@ =~~= old(self)@.update(
                            queue as int,
                            q0.subrange(0, q0.len() - drained@.len()),
                        ));
                        assert(q0.subrange(0, q0.len() - dlen).last() == q0[q0.len() - 1 - dlen]);
                    }
                },
                None => {
                    proof {
                        assert(q0.len() - dlen == 0);
                        assert(q0.subrange(0, 0) =~= Seq::<usize>::empty());
                        assert(self@ =~~= old(self)@.update(queue as int, Seq::<usize>::empty()));
                        assert(drained@ =~= q0.reverse());
                    }
                    return drained;
                },
            }
        }
    }
}

/// The run-queue generation after enqueuing every thread of `list`, in list
/// order, each at its own priority as recorded in `threads`.
pub open spec fn gen_put_all(
    b: Seq<Seq<usize>>,
    threads: Seq<Thread>,
    list: Seq<usize>,
) -> Seq<Seq<usize>>
    decreases list.len(),
{
    if list.len() == 0 {
        b
    } else {
        gen_put_all(
            gen_put(b, list[0], threads[list[0] as int].priority),
            threads,
            list.drop_first(),
        )
    }
}

/// The thread arena after marking every thread of `list` Runnable.
pub open spec fn set_runnable_all(threads: Seq<Thread>, list: Seq<usize>) -> Seq<Thread>
    decreases list.len(),
{
    if list.len() == 0 {
        threads
    } else {
        set_runnable_all(
            threads.update(
                list[0] as int,
                Thread { state: ThreadState::Runnable, ..threads[list[0] as int] },
            ),
            list.drop_first(),
        )
    }
}

/// Enqueuing one more thread at the end of the list is one more `gen_put`.
proof fn lemma_gen_put_all_push(
    b: Seq<Seq<usize>>,
    threads: Seq<Thread>,
    list: Seq<usize>,
    x: usize,
)
    ensures
        gen_put_all(b, threads, list.push(x)) == gen_put(
            gen_put_all(b, threads, list),
            x,
            threads[x as int].priority,
        ),
    decreases list.len(),
{
    assert(list.push(x)[0] == if list.len() == 0 { x } else { list[0] });
    if list.len() == 0 {
        assert(list.push(x).drop_first() =~= list);
        assert(gen_put_all(b, threads, list.push(x)) == gen_put_all(
            gen_put(b, x, threads[x as int].priority),
            threads,
            list,
        ));
    } else {
        assert(list.push(x).drop_first() =~= list.drop_first().push(x));
        lemma_gen_put_all_push(
            gen_put(b, list[0], threads[list[0] as int].priority),
            threads,
            list.drop_first(),
            x,
        );
    }
}

/// Marking one more thread at the end of the list is one more update, as long
/// as the earlier markings did not touch its priority-carrying fields — they
/// never do, they only set the state.
proof fn lemma_set_runnable_all_push(threads: Seq<Thread>, list: Seq<usize>, x: usize)
    requires
        x < threads.len(),
        forall|k: int| 0 <= k < list.len() ==> (#[trigger] list[k]) < threads.len(),
    ensures
        set_runnable_all(threads, list.push(x)) == set_runnable_all(threads, list).update(
            x as int,
            Thread {
                state: ThreadState::Runnable,
                ..set_runnable_all(threads, list)[x as int]
            },
        ),
    decreases list.len(),
{
    reveal_with_fuel(set_runnable_all, 2);
    assert(list.push(x)[0] == if list.len() == 0 { x } else { list[0] });
    if list.len() == 0 {
        assert(list.push(x).drop_first() =~= list);
        assert(set_runnable_all(threads, list.push(x)) == threads.update(
            x as int,
            Thread { state: ThreadState::Runnable, ..threads[x as int] },
        ));
    } else {
        let th1 = threads.update(
            list[0] as int,
            Thread { state: ThreadState::Runnable, ..threads[list[0] as int] },
        );
        assert(list.push(x).drop_first() =~= list.drop_first().push(x));
        assert(forall|k: int|
            0 <= k < list.drop_first().len() ==> (#[trigger] list.drop_first()[k])
                < th1.len()) by {
            assert(forall|k: int|
                0 <= k < list.drop_first().len() ==> list.drop_first()[k] == list[k + 1]);
        }
        lemma_set_runnable_all_push(th1, list.drop_first(), x);
    }
}

/// Marking threads Runnable changes no other field of any thread and no
/// thread outside the list.
proof fn lemma_set_runnable_all_index(threads: Seq<Thread>, list: Seq<usize>)
    requires
        threads.len() <= usize::MAX,
        forall|k: int| 0 <= k < list.len() ==> (#[trigger] list[k]) < threads.len(),
    ensures
        set_runnable_all(threads, list).len() == threads.len(),
        forall|k: int|
            0 <= k < threads.len() ==> #[trigger] set_runnable_all(threads, list)[k] == (
            if list.contains(k as usize) {
                Thread { state: ThreadState::Runnable, ..threads[k] }
            } else {
                threads[k]
            }),
    decreases list.len(),
{
    if list.len() > 0 {
        let x = list[0];
        let th1 = threads.update(
            x as int,
            Thread { state: ThreadState::Runnable, ..threads[x as int] },
        );
        assert(forall|k: int|
            0 <= k < list.drop_first().len() ==> (#[trigger] list.drop_first()[k])
                < th1.len()) by {
            assert(forall|k: int|
                0 <= k < list.drop_first().len() ==> list.drop_first()[k] == list[k + 1]);
        }
        lemma_set_runnable_all_index(th1, list.drop_first());
        assert forall|k: int|
            0 <= k < threads.len() implies #[trigger] set_runnable_all(threads, list)[k] == (
        if list.contains(k as usize) {
            Thread { state: ThreadState::Runnable, ..threads[k] }
        } else {
            threads[k]
        }) by {
            assert(set_runnable_all(threads, list) == set_runnable_all(th1, list.drop_first()));
            if list.contains(k as usize) {
                let j = choose|j: int| 0 <= j < list.len() && list[j] == k as usize;
                if j == 0 {
                    assert(k as usize == x);
                    assert(th1[k] == (Thread { state: ThreadState::Runnable, ..threads[k] }));
                    if list.drop_first().contains(k as usize) {
                        assert(set_runnable_all(th1, list.drop_first())[k] == (Thread {
                            state: ThreadState::Runnable,
                            ..th1[k]
                        }));
                    } else {
                        assert(set_runnable_all(th1, list.drop_first())[k] == th1[k]);
                    }
                } else {
                    assert(list.drop_first()[j - 1] == k as usize);
                    assert(list.drop_first().contains(k as usize));
                    if k as usize == x {
                        assert(th1[k] == (Thread { state: ThreadState::Runnable, ..threads[k] }));
                    } else {
                        assert(th1[k] == threads[k]);
                    }
                }
            } else {
                assert(k as usize != x) by {
                    assert(list[0] == x);
                }
                if list.drop_first().contains(k as usize) {
                    let j = choose|j: int|
                        0 <= j < list.drop_first().len() && list.drop_first()[j] == k as usize;
                    assert(list[j + 1] == k as usize);
                    assert(false);
                }
            }
        }
    }
}

/// A sequence and its reverse hold the same elements.
proof fn lemma_reverse_contains(s: Seq<usize>, e: usize)
    ensures
        s.reverse().contains(e) <==> s.contains(e),
{
    if s.contains(e) {
        let i = choose|i: int| 0 <= i < s.len() && s[i] == e;
        assert(s.reverse()[s.len() - 1 - i] == e);
    }
    if s.reverse().contains(e) {
        let i = choose|i: int| 0 <= i < s.reverse().len() && s.reverse()[i] == e;
        assert(s[s.len() - 1 - i] == e);
    }
}

/// Park the calling thread on the wait queue for one interrupt number. The
/// thread is Waiting from here on; it stays parked until the matching signal
/// on this same CPU — there is no timeout.
pub fn add_interrupt_thread(cpu: &mut Cpu, queue: usize, tid: usize)
    requires
        old(cpu).wf(),
        queue < MAX_INT,
        tid < old(cpu).threads@.len(),
    ensures
        final(cpu).wf(),
        final(cpu).waitqueues@ == old(cpu).waitqueues@.update(
            queue as int,
            old(cpu).waitqueues@[queue as int].push(tid),
        ),
        final(cpu).threads@ == old(cpu).threads@.update(
            tid as int,
            (Thread { state: ThreadState::Waiting, ..old(cpu).threads@[tid as int] }),
        ),
        final(cpu).sched == old(cpu).sched,
        final(cpu).current == old(cpu).current,
{
    cpu.threads[tid].state = ThreadState::Waiting;
    cpu.waitqueues.add_thread(queue, tid);
    proof {
        let n = cpu.threads@.len() as nat;
        assert forall|q: int, i: int|
            0 <= q < cpu.waitqueues@.len() && 0 <= i < cpu.waitqueues@[q].len() implies
            #[trigger] cpu.waitqueues@[q][i] < n by {
            if q == queue as int && i == old(cpu).waitqueues@[q].len() {
            } else {
                assert(cpu.waitqueues@[q][i] == old(cpu).waitqueues@[q][i]);
            }
        }
        assert(forall|k: int|
            0 <= k < cpu.threads@.len() ==> (#[trigger] cpu.threads@[k]).wf());
    }
}

/// Wake every thread parked for one interrupt number: drain the whole list,
/// newest first, mark each thread found Runnable and hand it back to the
/// scheduler's passive generation at its own priority. The list is empty
/// afterwards, and a signal with nothing parked changes nothing. Waking makes
/// the threads eligible; they run only at a later scheduling decision.
pub fn signal_interrupt_threads(cpu: &mut Cpu, queue: usize)
    requires
        old(cpu).wf(),
        queue < MAX_INT,
    ensures
        final(cpu).wf(),
        final(cpu).waitqueues@ == old(cpu).waitqueues@.update(
            queue as int,
            Seq::<usize>::empty(),
        ),
        final(cpu).threads@ == set_runnable_all(
            old(cpu).threads@,
            old(cpu).waitqueues@[queue as int].reverse(),
        ),
        final(cpu).threads@.len() == old(cpu).threads@.len(),
        forall|k: int|
            0 <= k < old(cpu).threads@.len() ==> #[trigger] final(cpu).threads@[k] == (if old(
                cpu,
            ).waitqueues@[queue as int].contains(k as usize) {
                Thread { state: ThreadState::Runnable, ..old(cpu).threads@[k] }
            } else {
                old(cpu).threads@[k]
            }),
        final(cpu).sched.drain_gen() == old(cpu).sched.drain_gen(),
        final(cpu).sched.fill_gen() == gen_put_all(
            old(cpu).sched.fill_gen(),
            old(cpu).threads@,
            old(cpu).waitqueues@[queue as int].reverse(),
        ),
        final(cpu).current == old(cpu).current,
{
    let ghost q0 = cpu.waitqueues@[queue as int];
    let drained = cpu.waitqueues.take_all(queue);
    let ghost list = drained@;
    let ghost threads0 = cpu.threads@;
    let ghost fill0 = cpu.sched.fill_gen();
    let ghost drain0 = cpu.sched.drain_gen();
    let ghost wq1 = cpu.waitqueues@;
    let ghost cur0 = cpu.current;
    proof {
        assert forall|k: int| 0 <= k < list.len() implies (#[trigger] list[k])
            < threads0.len() by {
            assert(list[k] == q0[q0.len() - 1 - k]);
        }
        assert(list.take(0) =~= Seq::<usize>::empty());
        assert(threads0.len() == cpu.threads.len());
    }
    let mut i: usize = 0;
    while i < drained.len()
        invariant
            i <= list.len(),
            drained@ == list,
            cpu.wf(),
            queue < MAX_INT,
            cpu.threads@.len() == threads0.len(),
            threads0.len() <= usize::MAX,
            forall|k: int| 0 <= k < list.len() ==> (#[trigger] list[k]) < threads0.len(),
            cpu.threads@ == set_runnable_all(threads0, list.take(i as int)),
            cpu.sched.fill_gen() == gen_put_all(fill0, threads0, list.take(i as int)),
            cpu.sched.drain_gen() == drain0,
            cpu.waitqueues@ == wq1,
            cpu.current == cur0,
            forall|k: int| 0 <= k < threads0.len() ==> (#[trigger] threads0[k]).wf(),
        decreases list.len() - i,
    {
        proof {
            lemma_set_runnable_all_index(threads0, list.take(i as int));
        }
        let tid = drained[i];
        cpu.threads[tid].state = ThreadState::Runnable;
        let prio = cpu.threads[tid].priority;
        proof {
            assert(prio == threads0[tid as int].priority);
            assert(prio <= MAX_PRIO) by {
                assert(threads0[tid as int].wf());
            }
        }
        cpu.sched.put_thread(tid, prio);
        proof {
            assert(list.take(i + 1) =~= list.take(i as int).push(tid));
            lemma_set_runnable_all_push(threads0, list.take(i as int), tid);
            lemma_gen_put_all_push(fill0, threads0, list.take(i as int), tid);
            assert(cpu.threads@ == set_runnable_all(threads0, list.take(i + 1)));
            assert(cpu.sched.fill_gen() == gen_put_all(fill0, threads0, list.take(i + 1)));
            lemma_ids_below_put(
                gen_put_all(fill0, threads0, list.take(i as int)),
                tid,
                prio,
                threads0.len() as nat,
            );
            lemma_set_runnable_all_index(threads0, list.take(i + 1));
            assert(forall|k: int|
                0 <= k < cpu.threads@.len() ==> (#[trigger] cpu.threads@[k]).wf());
        }
        i = i + 1;
    }
    proof {
        assert(list.take(list.len() as int) =~= list);
        lemma_set_runnable_all_index(threads0, list);
        assert forall|k: int|
            0 <= k < threads0.len() implies #[trigger] cpu.threads@[k] == (if q0.contains(
            k as usize,
        ) {
            Thread { state: ThreadState::Runnable, ..threads0[k] }
        } else {
            threads0[k]
        }) by {
            lemma_reverse_contains(q0, k as usize);
        }
    }
}

} // verus!
