use isocore::nullnet::NullNet;
use isocore::heap::{MemLayout, PHeap};
use isocore::rref::RRefDeque;
use isocore::thread::{create_thread, do_yield, init_threads, schedule, Cpu, Stack, Context, PThread, Thread, ThreadState, STACK_SIZE_IN_LINES};
use isocore::waitqueue::{add_interrupt_thread, signal_interrupt_threads};

#[test]
fn fresh_thread_fields() {
    let t = Thread::new("worker", 0x4242);
    assert_eq!(t.name, "worker");
    assert!(matches!(t.state, ThreadState::Runnable));
    assert_eq!(t.priority, 0);
    assert_eq!(t.affinity, 0);
    assert_eq!(t.current_domain_id, 0);
    assert_eq!(t.context.r15, 0x4242);
    assert_eq!(t.context.rsp, 0);
    assert_eq!(t.stack.mem.len(), STACK_SIZE_IN_LINES);
    assert!(t.stack.mem.iter().all(|w| *w == 0));
}

#[test]
fn stack_and_context_zeroed() {
    let s = Stack::new();
    assert_eq!(s.mem.len(), 4096 * 2);
    assert_eq!(s.mem[0], 0);
    assert_eq!(s.mem[s.mem.len() - 1], 0);
    let c = Context::new();
    assert_eq!(c.r15 + c.r14 + c.r13 + c.r12 + c.r11, 0);
    assert_eq!(c.rbx + c.rbp + c.rsp + c.rflags, 0);
    let h = PThread::new(3);
    assert_eq!(h.tid, 3);
}

#[test]
fn schedule_round_robin_with_idle() {
    let mut cpu = Cpu::new();
    init_threads(&mut cpu);
    let idle = cpu.current.unwrap();
    let a = create_thread(&mut cpu, "a", 0).tid;

    // The idle thread yields; thread a is picked and idle is re-enqueued.
    let first = schedule(&mut cpu);
    assert_eq!(first, Some((idle, a)));
    assert_eq!(cpu.current, Some(a));
    assert!(matches!(cpu.threads[a].state, ThreadState::Running));
    assert!(matches!(cpu.threads[idle].state, ThreadState::Runnable));

    // Thread a yields; control goes back to idle.
    let second = do_yield(&mut cpu);
    assert_eq!(second, Some((a, idle)));
    assert_eq!(cpu.current, Some(idle));
    assert!(matches!(cpu.threads[idle].state, ThreadState::Running));
}

#[test]
fn schedule_without_runnable_threads_keeps_current() {
    let mut cpu = Cpu::new();
    init_threads(&mut cpu);
    let idle = cpu.current.unwrap();
    assert_eq!(schedule(&mut cpu), None);
    assert_eq!(cpu.current, Some(idle));
}

#[test]
fn priority_and_affinity_take_effect() {
    let mut cpu = Cpu::new();
    init_threads(&mut cpu);
    let low = create_thread(&mut cpu, "low", 0).tid;
    let high = create_thread(&mut cpu, "high", 0).tid;
    cpu.set_priority(high, 9);
    cpu.set_affinity(high, 1);
    assert_eq!(cpu.threads[high].priority, 9);
    assert_eq!(cpu.threads[high].affinity, 1);
    // Drain the creation-time enqueues, then re-enqueue both into one
    // generation, high at its new priority: it now comes out first.
    assert_eq!(cpu.sched.next(), Some(high));
    assert_eq!(cpu.sched.next(), Some(low));
    cpu.sched.put_thread(low, 0);
    cpu.sched.put_thread(high, 9);
    assert_eq!(cpu.sched.next(), Some(high));
    assert_eq!(cpu.sched.next(), Some(low));
    cpu.set_state(low, ThreadState::Paused);
    assert!(matches!(cpu.threads[low].state, ThreadState::Paused));
}

#[test]
fn interrupt_wake_scenario() {
    let mut cpu = Cpu::new();
    init_threads(&mut cpu);
    let t1 = create_thread(&mut cpu, "t1", 0).tid;
    let t2 = create_thread(&mut cpu, "t2", 0).tid;
    // Drain the creation-time enqueues so the run queue is empty.
    assert_eq!(cpu.sched.next(), Some(t2));
    assert_eq!(cpu.sched.next(), Some(t1));
    assert_eq!(cpu.sched.next(), None);

    // Park T1 and T2 on interrupt queue 7.
    add_interrupt_thread(&mut cpu, 7, t1);
    add_interrupt_thread(&mut cpu, 7, t2);
    assert!(matches!(cpu.threads[t1].state, ThreadState::Waiting));
    assert!(matches!(cpu.threads[t2].state, ThreadState::Waiting));

    // A signal on another queue wakes nobody.
    signal_interrupt_threads(&mut cpu, 8);
    assert!(matches!(cpu.threads[t1].state, ThreadState::Waiting));

    // The signal on queue 7 wakes both and re-enqueues them, newest first.
    signal_interrupt_threads(&mut cpu, 7);
    assert!(matches!(cpu.threads[t1].state, ThreadState::Runnable));
    assert!(matches!(cpu.threads[t2].state, ThreadState::Runnable));

    // A second signal with nothing parked is a no-op: the queue was left
    // empty, so nothing further is enqueued.
    signal_interrupt_threads(&mut cpu, 7);
    assert_eq!(cpu.sched.next(), Some(t1));
    assert_eq!(cpu.sched.next(), Some(t2));
    assert_eq!(cpu.sched.next(), None);
}

#[test]
fn domain_id_swap_on_current_thread() {
    let mut cpu = Cpu::new();
    init_threads(&mut cpu);
    assert_eq!(cpu.get_current_domain_id(), 0);
    // A cross-domain call brackets its body with swap and restore.
    let saved = cpu.update_current_domain_id(4);
    assert_eq!(saved, 0);
    assert_eq!(cpu.get_current_domain_id(), 4);
    let restored = cpu.update_current_domain_id(saved);
    assert_eq!(restored, 4);
    assert_eq!(cpu.get_current_domain_id(), 0);
}

#[test]
fn nullnet_reports_whole_batch_processed() {
    let mut heap = PHeap::new();
    let net = NullNet::new();
    let l = MemLayout { size: 1512 * 32, align: 8 };
    let mut packets: RRefDeque<u64, 32> =
        RRefDeque::new(&mut heap, 1, 0x1000, l, vec![None; 32]);
    let collect: RRefDeque<u64, 32> =
        RRefDeque::new(&mut heap, 1, 0x2000, l, vec![None; 32]);
    packets.push_back(10);
    packets.push_back(11);
    let (done, mut new_packets, mut new_collect) =
        net.submit_and_poll_rref(packets, collect, true, 64);
    assert_eq!(done, 2);
    // The buffers swap roles: the submitted batch is now the collect buffer.
    assert_eq!(new_packets.pop_front(), None);
    assert_eq!(new_collect.pop_front(), Some(10));
    assert_eq!(new_collect.pop_front(), Some(11));

    let big: RRefDeque<u64, 512> = RRefDeque::new(
        &mut heap,
        1,
        0x3000,
        MemLayout { size: 1512 * 512, align: 8 },
        vec![None; 512],
    );
    let (got, mut big_back) = net.poll_rref(big, false);
    assert_eq!(got, 0);
    assert_eq!(big_back.pop_front(), None);
}
