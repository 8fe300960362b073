use rtsched::ktimer::{KTimerEntity, KTimerType};
use rtsched::sched::{compute_vruntime, SchedEntity, Scheduler, ThreadState, ThreadType};

fn queue_ids(s: &Scheduler) -> Vec<usize> {
    let mut out = Vec::new();
    let mut cur = s.run_queue().get().first();
    while let Some(e) = cur {
        out.push(e.1);
        cur = s.run_queue().get().next(e.0, e.1);
    }
    out
}

#[test]
fn vruntime_formula() {
    // vruntime = (ticks_consumed * priority) / priority_sum_of_all_CFS_threads
    assert_eq!(compute_vruntime(100, 2, 4), 50);
    assert_eq!(compute_vruntime(7, 3, 2), 10);
    assert_eq!(compute_vruntime(u32::MAX, u32::MAX, 1), (u32::MAX as u64) * (u32::MAX as u64));
    // A higher priority (lower value) gives a slower vruntime.
    assert!(compute_vruntime(1000, 1, 3) < compute_vruntime(1000, 2, 3));
}

#[test]
fn sched_entity_accessors() {
    let mut e = SchedEntity::new(3);
    assert_eq!(e.priority, 3);
    assert_eq!(e.vruntime(), 0);
    assert_eq!(e.sched_tick_cnt(), 0);
    assert!(!e.is_linked());
    e.reset_links();
    assert!(!e.is_linked());
}

#[test]
fn enqueue_dequeue_priority_sum() {
    let mut s = Scheduler::new();
    let a = s.add_thread(ThreadType::Cfs, 2);
    let b = s.add_thread(ThreadType::Cfs, 5);
    s.enqueue_thread(a);
    s.enqueue_thread(b);
    assert_eq!(s.run_queue().priority_sum(), 7);
    assert_eq!(queue_ids(&s), vec![a, b]);
    assert!(s.thread(a).sched_entity.is_linked());
    s.dequeue_thread(a);
    assert_eq!(s.run_queue().priority_sum(), 5);
    assert_eq!(queue_ids(&s), vec![b]);
    assert!(!s.thread(a).sched_entity.is_linked());
}

#[test]
fn dequeue_of_unqueued_thread_keeps_sum() {
    let mut s = Scheduler::new();
    let a = s.add_thread(ThreadType::Cfs, 2);
    let r = s.add_thread(ThreadType::Rt, 4);
    s.enqueue_thread(a);
    assert_eq!(s.run_queue().priority_sum(), 2);
    assert_eq!(s.thread(r).state, ThreadState::Ready);
    s.dequeue_thread(r);
    assert_eq!(s.run_queue().priority_sum(), 2);
    assert_eq!(queue_ids(&s), vec![a]);
}

#[test]
fn equal_vruntime_traversed_by_id() {
    let mut s = Scheduler::new();
    let a = s.add_thread(ThreadType::Cfs, 1);
    let b = s.add_thread(ThreadType::Cfs, 1);
    s.enqueue_thread(b);
    s.enqueue_thread(a);
    assert_eq!(queue_ids(&s), vec![a, b]);
    assert_eq!(s.traverse_run_queue(None), Some(a));
    assert_eq!(s.traverse_run_queue(Some(a)), Some(b));
    assert_eq!(s.traverse_run_queue(Some(b)), None);
}

#[test]
fn traverse_current_then_queue() {
    let mut s = Scheduler::new();
    let a = s.add_thread(ThreadType::Cfs, 1);
    let b = s.add_thread(ThreadType::Cfs, 1);
    let c = s.add_thread(ThreadType::Cfs, 1);
    assert_eq!(s.traverse_run_queue(None), None);
    s.enqueue_thread(a);
    s.enqueue_thread(b);
    s.enqueue_thread(c);
    assert_eq!(s.traverse_run_queue(None), Some(a));
    s.spawn_main_thread(a);
    assert_eq!(s.current_thread(), Some(a));
    assert_eq!(s.thread(a).state, ThreadState::Running);
    assert_eq!(s.traverse_run_queue(None), Some(a));
    assert_eq!(s.traverse_run_queue(Some(a)), Some(b));
    assert_eq!(s.traverse_run_queue(Some(b)), Some(c));
    assert_eq!(s.traverse_run_queue(Some(c)), None);
}

#[test]
fn cfs_preemption_by_smaller_vruntime() {
    let mut s = Scheduler::new();
    let a = s.add_thread(ThreadType::Cfs, 1);
    let b = s.add_thread(ThreadType::Cfs, 1);
    s.init_cfs(100);
    s.enqueue_thread(a);
    s.enqueue_thread(b);
    s.spawn_main_thread(a);
    assert!(s.handle_systick(100));
    assert_eq!(s.next_ktimer(), s.ktimer_queue().first());
    assert_eq!(s.schedule(100), Some(100));
    // a ran 100 ticks: vruntime 100 * 1 / 2 = 50 > 0, so b takes over.
    assert_eq!(s.current_thread(), Some(b));
    assert_eq!(s.thread(b).state, ThreadState::Running);
    assert_eq!(s.thread(a).state, ThreadState::Ready);
    assert_eq!(s.thread(a).sched_entity.vruntime(), 50);
    assert_eq!(s.thread(a).sched_entity.sched_tick_cnt(), 100);
    assert_eq!(queue_ids(&s), vec![a]);
}

#[test]
fn cfs_keeps_thread_with_smaller_vruntime() {
    let mut s = Scheduler::new();
    let a = s.add_thread(ThreadType::Cfs, 1);
    let b = s.add_thread(ThreadType::Cfs, 9);
    s.init_cfs(100);
    s.enqueue_thread(a);
    s.enqueue_thread(b);
    s.spawn_main_thread(b);
    s.update_next_ktimer_to_first();
    assert_eq!(s.schedule(0), Some(100));
    // b has run no ticks: vruntime 0 is not above a's 0, so b keeps running.
    assert_eq!(s.current_thread(), Some(b));
    assert_eq!(queue_ids(&s), vec![a]);
}

#[test]
fn zero_priority_sum_leaves_systick_alone() {
    let mut s = Scheduler::new();
    let a = s.add_thread(ThreadType::Cfs, 1);
    s.init_cfs(50);
    s.spawn_main_thread(a);
    s.update_next_ktimer_to_first();
    assert_eq!(s.schedule(10), None);
    assert_eq!(s.thread(a).sched_entity.sched_tick_cnt(), 10);
    assert_eq!(s.current_thread(), Some(a));
}

#[test]
fn rt_timer_preempts_cfs_thread() {
    let mut s = Scheduler::new();
    let a = s.add_thread(ThreadType::Cfs, 1);
    let r = s.add_thread(ThreadType::Rt, 1);
    s.init_cfs(100);
    s.enqueue_thread(a);
    s.spawn_main_thread(a);
    let t = s.enqueue_ktimer(KTimerEntity::new(20, 20, KTimerType::Rt, Some(r)));
    s.update_next_ktimer_to_first();
    assert_eq!(s.next_ktimer(), Some(t));
    assert_eq!(s.schedule(20), Some(20));
    assert_eq!(s.current_thread(), Some(r));
    assert_eq!(s.thread(r).state, ThreadState::Running);
    assert_eq!(s.thread(a).state, ThreadState::Ready);
    assert_eq!(queue_ids(&s), vec![a]);
    assert_eq!(s.thread(a).sched_entity.vruntime(), 20);
}

#[test]
fn cfs_timer_hands_rt_thread_over() {
    let mut s = Scheduler::new();
    let a = s.add_thread(ThreadType::Cfs, 1);
    let r = s.add_thread(ThreadType::Rt, 1);
    s.init_cfs(10);
    s.enqueue_thread(a);
    s.spawn_main_thread(r);
    s.update_next_ktimer_to_first();
    assert_eq!(s.schedule(5), Some(10));
    assert_eq!(s.current_thread(), Some(a));
    assert_eq!(s.thread(a).state, ThreadState::Running);
    assert_eq!(s.thread(r).state, ThreadState::Ready);
    assert!(queue_ids(&s).is_empty());
}

#[test]
fn no_timer_only_programs_systick() {
    let mut s = Scheduler::new();
    assert_eq!(s.schedule(0), None);
    s.init_cfs(30);
    assert_eq!(s.next_ktimer_deadline(), Some(30));
    assert_eq!(s.next_ktimer_reload(), Some(29));
    assert_eq!(s.schedule(0), Some(30));
}

#[test]
fn systick_without_timers_requests_nothing() {
    let mut s = Scheduler::new();
    assert!(!s.handle_systick(10));
    assert_eq!(s.next_ktimer(), None);
}

#[test]
fn rt_yield_and_reset_through_scheduler() {
    let mut s = Scheduler::new();
    let r = s.add_thread(ThreadType::Rt, 1);
    let t = s.enqueue_ktimer(KTimerEntity::new(10, 4, KTimerType::Rt, Some(r)));
    assert!(s.yield_rt_ktimer(r, 3));
    assert_eq!(s.ktimer_queue().entity(t).deadline(), 7);
    assert!(s.reset_rt_ktimer_deadline(r));
    assert_eq!(s.ktimer_queue().entity(t).deadline(), 10);
    s.init_ktimer_queue();
    assert!(s.ktimer_queue().is_empty());
    assert_eq!(s.ktimer_queue().timer_count(), 1);
    assert!(!s.ktimer_queue().entity(t).is_linked());
    assert_eq!(s.ktimer_queue().entity(t).deadline(), 10);
    assert!(!s.reset_rt_ktimer_deadline(r));
}

#[test]
fn init_ktimer_queue_keeps_chosen_timer() {
    let mut s = Scheduler::new();
    let r = s.add_thread(ThreadType::Rt, 1);
    let t = s.enqueue_ktimer(KTimerEntity::new(10, 4, KTimerType::Rt, Some(r)));
    s.update_next_ktimer_to_first();
    assert_eq!(s.next_ktimer(), Some(t));
    s.init_ktimer_queue();
    assert_eq!(s.next_ktimer(), Some(t));
    assert_eq!(s.next_ktimer_deadline(), None);
}

#[test]
fn rt_timer_preempts_rt_thread() {
    let mut s = Scheduler::new();
    let r1 = s.add_thread(ThreadType::Rt, 1);
    let r2 = s.add_thread(ThreadType::Rt, 1);
    s.spawn_main_thread(r1);
    let t = s.enqueue_ktimer(KTimerEntity::new(15, 15, KTimerType::Rt, Some(r2)));
    s.update_next_ktimer_to_first();
    assert_eq!(s.next_ktimer(), Some(t));
    assert_eq!(s.schedule(15), Some(15));
    assert_eq!(s.current_thread(), Some(r2));
    assert_eq!(s.thread(r2).state, ThreadState::Running);
    assert_eq!(s.thread(r1).state, ThreadState::Ready);
    assert!(queue_ids(&s).is_empty());
}
