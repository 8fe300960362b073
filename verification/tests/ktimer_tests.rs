use rtsched::ktimer::{
    elapsed_ticks_since_current_reload, elapsed_ticks_since_last_interrupt, reload_from_ticks,
    KTimerEntity, KTimerQueue, KTimerType, SYSTICK_RELOAD_MAX,
};

fn order(q: &KTimerQueue) -> Vec<(usize, u32)> {
    let mut out = Vec::new();
    let mut cur = q.first();
    while let Some(id) = cur {
        out.push((id, q.entity(id).deadline()));
        cur = q.next(id);
    }
    out
}

fn rt(duration: u32, deadline: u32, thread: usize) -> KTimerEntity {
    KTimerEntity::new(duration, deadline, KTimerType::Rt, Some(thread))
}

#[test]
fn reload_values() {
    assert_eq!(reload_from_ticks(0), None);
    assert_eq!(reload_from_ticks(1), Some(0));
    assert_eq!(reload_from_ticks(1000), Some(999));
    assert_eq!(reload_from_ticks(SYSTICK_RELOAD_MAX + 1), Some(SYSTICK_RELOAD_MAX));
    assert_eq!(reload_from_ticks(SYSTICK_RELOAD_MAX + 2), None);
    assert_eq!(reload_from_ticks(u32::MAX), None);
}

#[test]
fn elapsed_ticks() {
    assert_eq!(elapsed_ticks_since_last_interrupt(999), 1000);
    assert_eq!(elapsed_ticks_since_last_interrupt(u32::MAX), u32::MAX);
    assert_eq!(elapsed_ticks_since_current_reload(999, 400), 599);
    assert_eq!(elapsed_ticks_since_current_reload(10, 20), 0);
}

#[test]
fn entity_accessors() {
    let mut e = KTimerEntity::new(10, 4, KTimerType::Cfs, None);
    assert_eq!(e.duration(), 10);
    assert_eq!(e.deadline(), 4);
    assert_eq!(e.timer_type(), KTimerType::Cfs);
    assert_eq!(e.thread(), None);
    assert!(!e.is_linked());
    e.set_deadline(9);
    e.set_timer_type(KTimerType::Rt);
    e.init_thread(Some(3));
    assert_eq!(e.deadline(), 9);
    assert_eq!(e.timer_type(), KTimerType::Rt);
    assert_eq!(e.thread(), Some(3));
    e.set_thread(Some(4));
    assert_eq!(e.thread(), Some(4));
    e.reset_links();
    assert!(!e.is_linked());
    assert_eq!(e.duration(), 10);
}

#[test]
fn queue_orders_by_deadline() {
    let mut q = KTimerQueue::new();
    assert!(q.is_empty());
    assert_eq!(q.next_deadline(), None);
    assert_eq!(q.next_reload(), None);
    let a = q.add(rt(5, 5, 0));
    let b = q.add(rt(10, 10, 1));
    let c = q.add(rt(6, 6, 2));
    assert!(!q.entity(a).is_linked());
    q.insert(b);
    q.insert(a);
    q.insert(c);
    assert!(q.entity(a).is_linked());
    assert_eq!(q.len(), 3);
    assert_eq!(q.first(), Some(a));
    assert_eq!(q.last(), Some(b));
    assert_eq!(order(&q), vec![(a, 5), (c, 6), (b, 10)]);
    assert_eq!(q.next_deadline(), Some(5));
    assert_eq!(q.next_reload(), Some(4));
    assert!(q.root().is_some());
}

#[test]
fn advance_lowers_linked_deadlines() {
    let mut q = KTimerQueue::new();
    let a = q.add(rt(5, 5, 0));
    let b = q.add(rt(10, 10, 1));
    let d = q.add(rt(7, 7, 2));
    q.insert(a);
    q.insert(b);
    q.advance(6);
    assert_eq!(order(&q), vec![(a, 0), (b, 4)]);
    assert_eq!(q.entity(d).deadline(), 7);
}

#[test]
fn dispatch_restarts_expired_timer() {
    let mut q = KTimerQueue::new();
    assert_eq!(q.dispatch_expired(), None);
    let a = q.add(rt(5, 5, 0));
    let b = q.add(rt(10, 10, 1));
    q.insert(a);
    q.insert(b);
    q.advance(5);
    // The restarted timer meets one with the same deadline: the smaller id
    // goes first.
    assert_eq!(q.dispatch_expired(), Some(a));
    assert_eq!(order(&q), vec![(a, 5), (b, 5)]);
    q.advance(5);
    assert_eq!(order(&q), vec![(a, 0), (b, 0)]);
    assert_eq!(q.dispatch_expired(), Some(b));
    assert_eq!(order(&q), vec![(b, 0), (a, 5)]);
}

#[test]
fn advance_orders_expired_timers_by_id() {
    let mut q = KTimerQueue::new();
    let a = q.add(rt(4, 4, 0));
    let b = q.add(rt(3, 3, 1));
    q.insert(a);
    q.insert(b);
    assert_eq!(order(&q), vec![(b, 3), (a, 4)]);
    q.advance(10);
    assert_eq!(order(&q), vec![(a, 0), (b, 0)]);
}

#[test]
fn equal_deadlines_ordered_by_id() {
    let mut q = KTimerQueue::new();
    let a = q.add(rt(7, 7, 0));
    let b = q.add(rt(7, 7, 1));
    q.insert(b);
    q.insert(a);
    assert_eq!(order(&q), vec![(a, 7), (b, 7)]);
    assert_eq!(q.root(), Some(b));
    assert_eq!(q.remove(a), Some(a));
    assert_eq!(q.root(), Some(b));
}

#[test]
fn remove_and_pop() {
    let mut q = KTimerQueue::new();
    let a = q.add(rt(5, 5, 0));
    let b = q.add(rt(10, 10, 1));
    q.insert(a);
    q.insert(b);
    assert_eq!(q.remove(a), Some(a));
    assert_eq!(q.remove(a), None);
    assert!(!q.entity(a).is_linked());
    assert_eq!(q.pop_first(), Some(b));
    assert_eq!(q.pop_first(), None);
    assert!(q.is_empty());
}

#[test]
fn reset_rt_deadline_of_thread() {
    let mut q = KTimerQueue::new();
    let a = q.add(rt(20, 3, 7));
    let b = q.add(rt(10, 8, 9));
    let c = q.add(KTimerEntity::new(4, 1, KTimerType::Cfs, None));
    q.insert(a);
    q.insert(b);
    q.insert(c);
    assert!(q.reset_rt_ktimer_deadline(9));
    assert_eq!(order(&q), vec![(c, 1), (a, 3), (b, 10)]);
    assert!(q.reset_rt_ktimer_deadline(7));
    assert_eq!(order(&q), vec![(c, 1), (b, 10), (a, 20)]);
    assert!(!q.reset_rt_ktimer_deadline(5));
    assert_eq!(order(&q), vec![(c, 1), (b, 10), (a, 20)]);
}

#[test]
fn yield_rt_gives_rest_of_period() {
    let mut q = KTimerQueue::new();
    let a = q.add(rt(10, 2, 1));
    let b = q.add(rt(8, 6, 2));
    q.insert(a);
    q.insert(b);
    assert!(!q.yield_rt_ktimer(2, 1));
    assert_eq!(order(&q), vec![(a, 2), (b, 6)]);
    assert!(q.yield_rt_ktimer(1, 3));
    assert_eq!(order(&q), vec![(b, 3), (a, 7)]);
}

#[test]
fn program_next_systick_restarts_first() {
    let mut q = KTimerQueue::new();
    assert_eq!(q.program_next_systick(), None);
    let a = q.add(rt(9, 2, 1));
    let b = q.add(rt(4, 4, 2));
    q.insert(a);
    q.insert(b);
    assert_eq!(q.program_next_systick(), Some(9));
    assert_eq!(order(&q), vec![(b, 4), (a, 9)]);
}

#[test]
fn earliest_deadline_first_example() {
    // Ta: C=2, D=5; Tb: C=3, D=10 -- Ta is served first.
    let mut q = KTimerQueue::new();
    let tb = q.add(rt(10, 10, 1));
    let ta = q.add(rt(5, 5, 0));
    q.insert(tb);
    q.insert(ta);
    assert_eq!(q.first(), Some(ta));
    assert_eq!(q.entity(ta).thread(), Some(0));
}

#[test]
fn default_queue_is_empty() {
    let q = KTimerQueue::default();
    assert!(q.is_empty());
    assert_eq!(q.timer_count(), 0);
}
