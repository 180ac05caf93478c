use isocore::sched::{Scheduler, SchedulerQueue};

#[test]
fn priority_ordering_on_drain() {
    // Threads of higher priority come out before any thread of strictly
    // lower priority that was queued with them.
    let mut q = SchedulerQueue::new();
    q.put_thread(10, 0);
    q.put_thread(11, 5);
    q.put_thread(12, 15);
    q.put_thread(13, 5);
    assert_eq!(q.get_highest(), Some(12));
    assert_eq!(q.get_highest(), Some(13));
    assert_eq!(q.get_highest(), Some(11));
    assert_eq!(q.get_highest(), Some(10));
    assert_eq!(q.get_highest(), None);
}

#[test]
fn same_priority_is_lifo() {
    // Within one priority the most recently enqueued thread runs first.
    let mut q = SchedulerQueue::new();
    q.put_thread(1, 7);
    q.put_thread(2, 7);
    q.put_thread(3, 7);
    assert_eq!(q.get_highest(), Some(3));
    assert_eq!(q.get_highest(), Some(2));
    assert_eq!(q.get_highest(), Some(1));
    assert_eq!(q.get_highest(), None);
}

#[test]
fn pop_thread_takes_newest_of_one_bucket() {
    let mut q = SchedulerQueue::new();
    q.put_thread(1, 3);
    q.put_thread(2, 3);
    assert_eq!(q.pop_thread(4), None);
    assert_eq!(q.pop_thread(3), Some(2));
    assert_eq!(q.pop_thread(3), Some(1));
    assert_eq!(q.pop_thread(3), None);
}

#[test]
fn arrivals_join_passive_generation() {
    // New arrivals never join the generation being drained: the scheduler
    // flips once the active generation is empty.
    let mut s = Scheduler::new();
    s.put_thread(1, 0);
    s.put_thread(2, 0);
    // Active generation is empty, so the first decision flips and drains the
    // generation that absorbed the arrivals, newest first at equal priority.
    assert_eq!(s.next(), Some(2));
    // Thread 3 arrives while the drained generation still holds thread 1: it
    // must wait for the next flip, whatever its order of arrival.
    s.put_thread(3, 0);
    assert_eq!(s.next(), Some(1));
    assert_eq!(s.next(), Some(3));
    assert_eq!(s.next(), None);
}

#[test]
fn anti_starvation_bounded_by_one_flip() {
    // A low-priority thread enqueued while the active generation drains is
    // returned before any later arrival, even a high-priority one.
    let mut s = Scheduler::new();
    s.put_thread(1, 5);
    assert_eq!(s.next(), Some(1));
    // Threads 9 and 10 arrive at priority 0 and are promoted together by the
    // next flip.
    s.put_thread(9, 0);
    s.put_thread(10, 0);
    assert_eq!(s.next(), Some(10));
    // Thread 8 arrives at top priority after that flip: it joins the passive
    // generation, so 9 still runs first despite its lower priority — a
    // thread's wait is bounded by the drain of its own generation.
    s.put_thread(8, 15);
    assert_eq!(s.next(), Some(9));
    assert_eq!(s.next(), Some(8));
    assert_eq!(s.next(), None);
}

#[test]
fn next_returns_none_only_when_both_generations_empty() {
    let mut s = Scheduler::new();
    assert_eq!(s.next(), None);
    s.put_thread(4, 2);
    assert_eq!(s.next(), Some(4));
    assert_eq!(s.next(), None);
    assert_eq!(s.next(), None);
}

#[test]
fn drain_via_next_is_priority_ordered() {
    // A sequence of put_thread calls followed by draining via next(): every
    // thread comes out before any thread of strictly lower priority, and
    // newest first within one priority.
    let mut s = Scheduler::new();
    s.put_thread(1, 2);
    s.put_thread(2, 9);
    s.put_thread(3, 9);
    s.put_thread(4, 0);
    assert_eq!(s.next(), Some(3));
    assert_eq!(s.next(), Some(2));
    assert_eq!(s.next(), Some(1));
    assert_eq!(s.next(), Some(4));
    assert_eq!(s.next(), None);
}
