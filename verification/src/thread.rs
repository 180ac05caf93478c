//! Thread objects, their lifecycle, and the per-CPU state that drives
//! scheduling decisions. Threads live in an arena indexed by a stable thread
//! id; the scheduler's buckets and the interrupt wait queues hold those ids.
//! The context switch itself — saving and restoring machine registers — is a
//! platform primitive that the embedding program supplies; `schedule` makes
//! the decision and reports which saved context to leave and which to enter.

use vstd::prelude::*;

verus! {

use crate::sched::{
    Scheduler, sched_next_spec, gen_put, gen_ids_below, top_of, gen_sized, MAX_PRIO,
    lemma_highest_nonempty_props, lemma_ids_below_put, lemma_ids_below_popped,
};
use crate::waitqueue::InterruptWaitQueues;

/// Number of `usize` slots in one thread's fixed-size execution stack.
pub const STACK_SIZE_IN_LINES: usize = 4096 * 2;

/// The lifecycle states of a thread.
#[derive(Clone, Copy, PartialEq, Eq, Structural, Debug)]
pub enum ThreadState {
    /// Selected by the scheduler and executing on the CPU.
    Running,
    /// Queued in a scheduler bucket, ready to be selected.
    Runnable,
    /// Suspended by an explicit state change.
    Paused,
    /// Parked on an interrupt wait queue until signalled.
    Waiting,
}

/// A thread's fixed-size execution stack, allocated once at creation.
pub struct Stack {
    pub mem: Vec<usize>,
}

impl Stack {
    pub fn new() -> (s: Stack)
        ensures
            s.mem@.len() == STACK_SIZE_IN_LINES,
            forall|i: int| 0 <= i < s.mem@.len() ==> s.mem@[i] == 0,
    {
        let mut mem: Vec<usize> = Vec::new();
        let mut i: usize = 0;
        while i < STACK_SIZE_IN_LINES
            invariant
                i <= STACK_SIZE_IN_LINES,
                mem@.len() == i,
                forall|k: int| 0 <= k < i ==> mem@[k] == 0,
            decreases STACK_SIZE_IN_LINES - i,
        {
            mem.push(0);
            i = i + 1;
        }
        Stack { mem }
    }
}

/// The registers saved across a context switch: callee-saved general-purpose
/// registers, stack and frame pointers, and the flags word.
#[derive(Clone, Copy, PartialEq, Eq, Structural, Debug)]
pub struct Context {
    pub r15: usize,
    pub r14: usize,
    pub r13: usize,
    pub r12: usize,
    pub r11: usize,
    pub rbx: usize,
    pub rbp: usize,
    pub rsp: usize,
    pub rflags: usize,
}

impl Context {
    pub fn new() -> (c: Context)
        ensures
            c == (Context { r15: 0, r14: 0, r13: 0, r12: 0, r11: 0, rbx: 0, rbp: 0, rsp: 0, rflags: 0 }),
    {
        Context { r15: 0, r14: 0, r13: 0, r12: 0, r11: 0, rbx: 0, rbp: 0, rsp: 0, rflags: 0 }
    }
}

/// One thread: a diagnostic name, its lifecycle state, scheduling priority
/// and CPU affinity, the domain its code is currently executing for, the
/// saved register context, and an owned stack.
pub struct Thread {
    pub name: String,
    pub state: ThreadState,
    pub priority: usize,
    pub affinity: u64,
    pub current_domain_id: u64,
    pub context: Context,
    pub stack: Stack,
}

impl Thread {
    /// A thread's priority always names one of the scheduler's buckets.
    pub open spec fn wf(self) -> bool {
        self.priority <= MAX_PRIO
    }

    /// A fresh thread: runnable, lowest priority, no affinity, attributed to
    /// domain 0, owning a fixed-size zeroed stack allocated here. `entry` is
    /// the address of the thread's entry function, carried as an opaque word
    /// in the saved `r15`: the entry trampoline that the platform installs
    /// reads it from there on the thread's first switch-in. Every other saved
    /// register starts at zero.
    pub fn new(name: &str, entry: usize) -> (t: Thread)
        ensures
            t.wf(),
            t.name@ == name@,
            t.state == ThreadState::Runnable,
            t.priority == 0,
            t.affinity == 0,
            t.current_domain_id == 0,
            t.context == (Context { r15: entry, r14: 0, r13: 0, r12: 0, r11: 0, rbx: 0, rbp: 0, rsp: 0, rflags: 0 }),
            t.stack.mem@.len() == STACK_SIZE_IN_LINES,
            forall|i: int| 0 <= i < t.stack.mem@.len() ==> t.stack.mem@[i] == 0,
    {
        let mut context = Context::new();
        context.r15 = entry;
        Thread {
            name: name.to_owned(),
            state: ThreadState::Runnable,
            priority: 0,
            affinity: 0,
            current_domain_id: 0,
            context,
            stack: Stack::new(),
        }
    }
}

/// A handle to one thread, as handed to the code that created it: the
/// thread's stable arena id.
pub struct PThread {
    pub tid: usize,
}

impl PThread {
    pub fn new(tid: usize) -> (h: PThread)
        ensures
            h.tid == tid,
    {
        PThread { tid }
    }
}

/// Everything one CPU owns: the arena of thread slots, the id of the thread
/// currently running, the two-generation run queue, and the per-interrupt
/// wait queues. Each CPU schedules independently; nothing here is shared.
pub struct Cpu {
    pub threads: Vec<Thread>,
    pub current: Option<usize>,
    pub sched: Scheduler,
    pub waitqueues: InterruptWaitQueues,
}

impl Cpu {
    pub open spec fn wf(self) -> bool {
        &&& self.sched.wf()
        &&& gen_sized(self.sched.drain_gen())
        &&& gen_sized(self.sched.fill_gen())
        &&& gen_ids_below(self.sched.drain_gen(), self.threads@.len())
        &&& gen_ids_below(self.sched.fill_gen(), self.threads@.len())
        &&& self.waitqueues.wf()
        &&& self.waitqueues.ids_below(self.threads@.len())
        &&& (self.current matches Some(c) ==> c < self.threads@.len())
        &&& forall|k: int| 0 <= k < self.threads@.len() ==> (#[trigger] self.threads@[k]).wf()
    }

    /// A CPU before any thread exists: empty arena, nothing running, empty
    /// queues.
    pub fn new() -> (cpu: Cpu)
        ensures
            cpu.wf(),
            cpu.threads@.len() == 0,
            cpu.current is None,
    {
        Cpu {
            threads: Vec::new(),
            current: None,
            sched: Scheduler::new(),
            waitqueues: InterruptWaitQueues::new(),
        }
    }

    /// The domain the currently running thread is executing for.
    pub fn get_current_domain_id(&self) -> (id: u64)
        requires
            self.wf(),
            self.current is Some,
        ensures
            id == self.threads@[self.current.unwrap() as int].current_domain_id,
    {
        let c = match self.current {
            Some(c) => c,
            None => {
                proof {
                    assert(false);
                }
                0
            },
        };
        self.threads[c].current_domain_id
    }

    /// Swap the running thread's domain id, returning the old one. The
    /// cross-domain call convention brackets a call into another domain with
    /// this swap and its restore, so that every shared-heap allocation made
    /// during the call is attributed to the callee domain.
    pub fn update_current_domain_id(&mut self, new_domain_id: u64) -> (old_id: u64)
        requires
            old(self).wf(),
            old(self).current is Some,
        ensures
            final(self).wf(),
            old_id == old(self).threads@[old(self).current.unwrap() as int].current_domain_id,
            final(self).threads@ == old(self).threads@.update(
                old(self).current.unwrap() as int,
                (Thread {
                    current_domain_id: new_domain_id,
                    ..old(self).threads@[old(self).current.unwrap() as int]
                }),
            ),
            final(self).current == old(self).current,
            final(self).sched == old(self).sched,
            final(self).waitqueues == old(self).waitqueues,
    {
        let c = match self.current {
            Some(c) => c,
            None => {
                proof {
                    assert(false);
                }
                0
            },
        };
        let old_id = self.threads[c].current_domain_id;
        self.threads[c].current_domain_id = new_domain_id;
        proof {
            assert(final(self).wf()) by {
                assert(forall|k: int|
                    0 <= k < self.threads@.len() ==> (#[trigger] self.threads@[k]).wf());
            }
        }
        old_id
    }

    /// Set a thread's CPU affinity tag.
    pub fn set_affinity(&mut self, tid: usize, affinity: u64)
        requires
            old(self).wf(),
            tid < old(self).threads@.len(),
        ensures
            final(self).wf(),
            final(self).threads@ == old(self).threads@.update(
                tid as int,
                (Thread { affinity, ..old(self).threads@[tid as int] }),
            ),
            final(self).current == old(self).current,
            final(self).sched == old(self).sched,
            final(self).waitqueues == old(self).waitqueues,
    {
        self.threads[tid].affinity = affinity;
    }

    /// Set a thread's scheduling priority. Takes effect the next time the
    /// thread is enqueued.
    pub fn set_priority(&mut self, tid: usize, priority: usize)
        requires
            old(self).wf(),
            tid < old(self).threads@.len(),
            priority <= MAX_PRIO,
        ensures
            final(self).wf(),
            final(self).threads@ == old(self).threads@.update(
                tid as int,
                (Thread { priority, ..old(self).threads@[tid as int] }),
            ),
            final(self).current == old(self).current,
            final(self).sched == old(self).sched,
            final(self).waitqueues == old(self).waitqueues,
    {
        self.threads[tid].priority = priority;
    }

    /// Set a thread's lifecycle state.
    pub fn set_state(&mut self, tid: usize, state: ThreadState)
        requires
            old(self).wf(),
            tid < old(self).threads@.len(),
        ensures
            final(self).wf(),
            final(self).threads@ == old(self).threads@.update(
                tid as int,
                (Thread { state, ..old(self).threads@[tid as int] }),
            ),
            final(self).current == old(self).current,
            final(self).sched == old(self).sched,
            final(self).waitqueues == old(self).waitqueues,
    {
        self.threads[tid].state = state;
    }
}

/// Create a thread and hand it to the scheduler: the thread takes the next
/// arena slot, starts Runnable at priority 0 in the passive generation with
/// `entry` — the address of its entry function — stored in its saved context,
/// and the caller receives its handle. The entry trampoline that runs on the
/// thread's first switch-in is installed by the embedding program, which owns
/// the machine-level context layout and picks the entry word up from there.
pub fn create_thread(cpu: &mut Cpu, name: &str, entry: usize) -> (handle: PThread)
    requires
        old(cpu).wf(),
        old(cpu).threads@.len() < usize::MAX,
    ensures
        final(cpu).wf(),
        handle.tid == old(cpu).threads@.len(),
        final(cpu).threads@.len() == old(cpu).threads@.len() + 1,
        forall|k: int|
            0 <= k < old(cpu).threads@.len() ==> final(cpu).threads@[k] == old(cpu).threads@[k],
        final(cpu).threads@[handle.tid as int].name@ == name@,
        final(cpu).threads@[handle.tid as int].state == ThreadState::Runnable,
        final(cpu).threads@[handle.tid as int].priority == 0,
        final(cpu).threads@[handle.tid as int].context.r15 == entry,
        final(cpu).threads@[handle.tid as int].stack.mem@.len() == STACK_SIZE_IN_LINES,
        final(cpu).sched.fill_gen() == gen_put(old(cpu).sched.fill_gen(), handle.tid, 0),
        final(cpu).sched.drain_gen() == old(cpu).sched.drain_gen(),
        final(cpu).current == old(cpu).current,
        final(cpu).waitqueues == old(cpu).waitqueues,
{
    let tid = cpu.threads.len();
    let t = Thread::new(name, entry);
    cpu.threads.push(t);
    cpu.sched.put_thread(tid, 0);
    proof {
        lemma_ids_below_put(
            old(cpu).sched.fill_gen(),
            tid,
            0,
            old(cpu).threads@.len() as nat + 1,
        );
        assert(gen_ids_below(old(cpu).sched.drain_gen(), cpu.threads@.len() as nat));
        assert(gen_ids_below(old(cpu).sched.fill_gen(), cpu.threads@.len() as nat));
    }
    PThread::new(tid)
}

/// Install the first thread of a CPU — the idle thread — as the one
/// currently running, not queued anywhere. Every later scheduling decision
/// switches away from and eventually back to it. Because this thread is
/// already executing on the boot stack, it needs no entry word: its saved
/// context is first filled when it is switched away from.
pub fn init_threads(cpu: &mut Cpu)
    requires
        old(cpu).wf(),
        old(cpu).threads@.len() < usize::MAX,
    ensures
        final(cpu).wf(),
        final(cpu).current == Some(old(cpu).threads.len()),
        final(cpu).threads@.len() == old(cpu).threads@.len() + 1,
        forall|k: int|
            0 <= k < old(cpu).threads@.len() ==> final(cpu).threads@[k] == old(cpu).threads@[k],
        final(cpu).threads@[old(cpu).threads@.len() as int].state == ThreadState::Running,
        final(cpu).threads@[old(cpu).threads@.len() as int].name@ == "idle"@,
        final(cpu).sched == old(cpu).sched,
        final(cpu).waitqueues == old(cpu).waitqueues,
{
    let tid = cpu.threads.len();
    let mut t = Thread::new("idle", 0);
    t.state = ThreadState::Running;
    cpu.threads.push(t);
    cpu.current = Some(tid);
}

/// One scheduling decision, entered from the timer interrupt or an explicit
/// yield. Asks the run queue for the next thread; with none, the current
/// thread keeps running and there is nothing to switch. Otherwise the chosen
/// thread becomes current and Running, the previously current thread becomes
/// Runnable and rejoins the passive generation at its own priority, and the
/// caller receives the pair (outgoing thread id, incoming thread id) whose
/// saved register contexts the platform's switch primitive must swap.
pub fn schedule(cpu: &mut Cpu) -> (switch: Option<(usize, usize)>)
    requires
        old(cpu).wf(),
        old(cpu).current is Some,
    ensures
        final(cpu).wf(),
        final(cpu).waitqueues == old(cpu).waitqueues,
        ({
            let d = old(cpu).sched.drain_gen();
            let f = old(cpu).sched.fill_gen();
            let c = old(cpu).current.unwrap();
            let step = sched_next_spec(d, f);
            match step.2 {
                None => {
                    &&& switch is None
                    &&& final(cpu).current == old(cpu).current
                    &&& final(cpu).threads@ == old(cpu).threads@
                    &&& final(cpu).sched.drain_gen() == step.0
                    &&& final(cpu).sched.fill_gen() == step.1
                },
                Some(t) => {
                    &&& switch == Some((c, t))
                    &&& final(cpu).current == Some(t)
                    &&& ({
                        let th1 = old(cpu).threads@.update(
                            c as int,
                            Thread { state: ThreadState::Runnable, ..old(cpu).threads@[c as int] },
                        );
                        final(cpu).threads@ == th1.update(
                            t as int,
                            Thread { state: ThreadState::Running, ..th1[t as int] },
                        )
                    })
                    &&& final(cpu).sched.drain_gen() == step.0
                    &&& final(cpu).sched.fill_gen() == gen_put(
                        step.1,
                        c,
                        old(cpu).threads@[c as int].priority,
                    )
                },
            }
        }),
{
    proof {
        lemma_highest_nonempty_props(
            old(cpu).sched.drain_gen(),
            old(cpu).sched.drain_gen().len() - 1,
        );
        lemma_highest_nonempty_props(
            old(cpu).sched.fill_gen(),
            old(cpu).sched.fill_gen().len() - 1,
        );
    }
    let picked = cpu.sched.next();
    let next_tid = match picked {
        Some(t) => t,
        None => {
            return None;
        },
    };
    proof {
        let d = old(cpu).sched.drain_gen();
        let f = old(cpu).sched.fill_gen();
        if top_of(d) >= 0 {
            lemma_ids_below_popped(d, old(cpu).threads@.len() as nat);
        } else {
            lemma_ids_below_popped(f, old(cpu).threads@.len() as nat);
        }
    }
    let c = match cpu.current {
        Some(c) => c,
        None => {
            proof {
                assert(false);
            }
            0
        },
    };
    cpu.threads[c].state = ThreadState::Runnable;
    let prio = cpu.threads[c].priority;
    proof {
        assert(prio <= MAX_PRIO) by {
            assert(old(cpu).threads@[c as int].wf());
        }
    }
    cpu.sched.put_thread(c, prio);
    cpu.threads[next_tid].state = ThreadState::Running;
    cpu.current = Some(next_tid);
    proof {
        lemma_ids_below_put(
            sched_next_spec(old(cpu).sched.drain_gen(), old(cpu).sched.fill_gen()).1,
            c,
            prio,
            old(cpu).threads@.len() as nat,
        );
        assert(forall|k: int|
            0 <= k < cpu.threads@.len() ==> (#[trigger] cpu.threads@[k]).wf());
    }
    Some((c, next_tid))
}

/// Voluntarily give up the CPU: simply take one scheduling decision now,
/// exactly as the timer tick would.
pub fn do_yield(cpu: &mut Cpu) -> (switch: Option<(usize, usize)>)
    requires
        old(cpu).wf(),
        old(cpu).current is Some,
    ensures
        final(cpu).wf(),
        final(cpu).waitqueues == old(cpu).waitqueues,
        ({
            let d = old(cpu).sched.drain_gen();
            let f = old(cpu).sched.fill_gen();
            let c = old(cpu).current.unwrap();
            let step = sched_next_spec(d, f);
            match step.2 {
                None => {
                    &&& switch is None
                    &&& final(cpu).current == old(cpu).current
                    &&& final(cpu).threads@ == old(cpu).threads@
                    &&& final(cpu).sched.drain_gen() == step.0
                    &&& final(cpu).sched.fill_gen() == step.1
                },
                Some(t) => {
                    &&& switch == Some((c, t))
                    &&& final(cpu).current == Some(t)
                    &&& ({
                        let th1 = old(cpu).threads@.update(
                            c as int,
                            Thread { state: ThreadState::Runnable, ..old(cpu).threads@[c as int] },
                        );
                        final(cpu).threads@ == th1.update(
                            t as int,
                            Thread { state: ThreadState::Running, ..th1[t as int] },
                        )
                    })
                    &&& final(cpu).sched.drain_gen() == step.0
                    &&& final(cpu).sched.fill_gen() == gen_put(
                        step.1,
                        c,
                        old(cpu).threads@[c as int].priority,
                    )
                },
            }
        }),
{
    schedule(cpu)
}

} // verus!
