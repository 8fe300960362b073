//! CFS run queue and the scheduler's decisions.
//!
//! Threads are named by the ids that `Scheduler::add_thread` hands out. The
//! run queue orders the ready CFS threads by virtual runtime, threads with
//! equal virtual runtime by id: the id is the stable tie-breaker, as an
//! entity's address would be.
use vstd::prelude::*;

use crate::ktimer::{
    first_rt_pos, is_rt_of, lemma_first_rt_pos, lowered, same_but_deadline, same_but_linked,
    spec_reload_from_ticks, unchanged_except, KTimerEntity, KTimerQueue, KTimerType,
};
use crate::rbtree::{
    advanced, lemma_advanced, has_id, ids_distinct, lemma_insert_ids_distinct, lemma_pos_of, lemma_remove_keeps_order,
    lemma_remove_undoes_insert,
    lemma_upper_pos, lemma_sorted_insert_contains, lemma_sorted_insert_sorted, entry_lt, pos_of, sorted, sorted_insert, upper_pos, Entry, RBTree,
};

verus! {

/// Run state of a thread.
#[derive(Clone, Copy, PartialEq, Eq, Debug)]
pub enum ThreadState {
    Ready,
    Running,
}

/// Which scheduler a thread belongs to.
#[derive(Clone, Copy, PartialEq, Eq, Debug)]
pub enum ThreadType {
    Cfs,
    Rt,
}

/// Scheduler entity of a thread: its accumulated ticks, its virtual runtime
/// (the run-queue key), its priority, and whether it is in the run queue.
#[derive(Clone, Copy, Debug)]
pub struct SchedEntity {
    pub sched_tick_cnt: u32,
    pub vruntime: u64,
    pub priority: u32,
    pub linked: bool,
}

impl SchedEntity {
    /// Create a detached scheduler entity that can be inserted into a tree.
    pub fn new(priority: u32) -> (e: Self)
        ensures
            e == (SchedEntity { sched_tick_cnt: 0, vruntime: 0, priority, linked: false }),
    {
        SchedEntity { sched_tick_cnt: 0, vruntime: 0, priority, linked: false }
    }

    /// Mark the entity as detached so that it can be queued again.
    pub fn reset_links(&mut self)
        ensures
            *final(self) == (SchedEntity { linked: false, ..*old(self) }),
    {
        self.linked = false;
    }

    /// Return `true` if the entity is currently in a run queue. This tells
    /// membership: an entity that is alone in its queue counts as linked
    /// too. Threads are named by id and the queue holds no links on the
    /// entity, so membership is the question such a test answers.
    /// (`RbNode::is_linked` reports child links on a node.)
    pub fn is_linked(&self) -> (r: bool)
        ensures
            r == self.linked,
    {
        self.linked
    }

    /// Return the scheduler virtual runtime used for run-queue ordering.
    pub fn vruntime(&self) -> (r: u64)
        ensures
            r == self.vruntime,
    {
        self.vruntime
    }

    /// Return the scheduler tick count accumulated for this entity.
    pub fn sched_tick_cnt(&self) -> (r: u32)
        ensures
            r == self.sched_tick_cnt,
    {
        self.sched_tick_cnt
    }
}

/// Scheduling state of one thread.
#[derive(Clone, Copy, Debug)]
pub struct Thread {
    pub state: ThreadState,
    pub thread_type: ThreadType,
    pub sched_entity: SchedEntity,
}

/// The CFS run queue: the tree of ready CFS threads keyed by virtual runtime,
/// and the sum of the priorities of the CFS threads handed to the scheduler.
pub struct RunQueue {
    tree: RBTree,
    priority_sum: u32,
}

impl RunQueue {
    /// The queued threads as `(vruntime, id)` entries, in queue order.
    pub closed spec fn entries(&self) -> Seq<Entry> {
        self.tree@
    }

    /// The priority sum.
    pub closed spec fn spec_priority_sum(&self) -> u32 {
        self.priority_sum
    }

    /// The tree is well formed.
    pub closed spec fn wf(&self) -> bool {
        self.tree.wf()
    }

    /// An empty run queue with a zero priority sum.
    pub fn new() -> (q: Self)
        ensures
            q.wf(),
            q.entries() == Seq::<Entry>::empty(),
            q.spec_priority_sum() == 0,
    {
        RunQueue { tree: RBTree::new(), priority_sum: 0 }
    }

    /// The tree of queued threads.
    pub fn get(&self) -> (r: &RBTree)
        ensures
            r@ == self.entries(),
            self.wf() ==> r.wf(),
    {
        &self.tree
    }

    /// The sum of the priorities of the CFS threads handed to the scheduler.
    pub fn priority_sum(&self) -> (r: u32)
        ensures
            r == self.spec_priority_sum(),
    {
        self.priority_sum
    }
}

/// Virtual runtime of a CFS thread: its ticks weighted by its priority over
/// the priority sum of all CFS threads.
pub open spec fn spec_vruntime(ticks: u32, priority: u32, priority_sum: u32) -> u64 {
    ((ticks as int * priority as int) / priority_sum as int) as u64
}

/// vruntime = (ticks_consumed * priority) / priority_sum_of_all_CFS_threads.
pub fn compute_vruntime(ticks: u32, priority: u32, priority_sum: u32) -> (r: u64)
    requires
        priority_sum > 0,
    ensures
        r == spec_vruntime(ticks, priority, priority_sum),
        r as int == (ticks as int * priority as int) / priority_sum as int,
{
    let t = ticks as u64;
    let p = priority as u64;
    assert(t * p <= u32::MAX * u32::MAX) by (nonlinear_arith)
        requires
            t <= u32::MAX,
            p <= u32::MAX,
    ;
    let prod = t * p;
    let r = prod / (priority_sum as u64);
    assert(r <= prod) by (nonlinear_arith)
        requires
            r == prod / (priority_sum as u64),
            priority_sum > 0,
    ;
    r
}


/// Every run-queue entry names a thread, under that thread's virtual runtime.
pub open spec fn rq_keys_match(q: Seq<Entry>, threads: Seq<Thread>) -> bool {
    forall|k: int|
        0 <= k < q.len() ==> (#[trigger] q[k]).1 < threads.len() && q[k].0
            == threads[q[k].1 as int].sched_entity.vruntime
}

/// A thread is marked linked exactly when the run queue holds it, and then it
/// is a ready CFS thread.
pub open spec fn rq_links_match(q: Seq<Entry>, threads: Seq<Thread>) -> bool {
    forall|id: usize|
        id < threads.len() ==> ((#[trigger] threads[id as int]).sched_entity.linked <==> has_id(q, id))
            && (threads[id as int].sched_entity.linked ==> threads[id as int].state
            == ThreadState::Ready && threads[id as int].thread_type == ThreadType::Cfs)
}

/// Every timer that names a thread names a real-time thread.
pub open spec fn timer_threads_ok(timers: Seq<KTimerEntity>, threads: Seq<Thread>) -> bool {
    forall|j: int|
        0 <= j < timers.len() && (#[trigger] timers[j]).spec_thread() is Some ==> timers[j].spec_thread()->0
            < threads.len() && threads[timers[j].spec_thread()->0 as int].thread_type == ThreadType::Rt
}

/// Timer threads stay valid when the threads keep their types and the timers
/// keep their threads.
proof fn lemma_timer_threads_frame(
    t0: Seq<KTimerEntity>,
    t1: Seq<KTimerEntity>,
    th0: Seq<Thread>,
    th1: Seq<Thread>,
)
    requires
        timer_threads_ok(t0, th0),
        t1.len() == t0.len(),
        forall|j: int| 0 <= j < t0.len() ==> #[trigger] t1[j].spec_thread() == t0[j].spec_thread(),
        th1.len() >= th0.len(),
        forall|i: int| 0 <= i < th0.len() ==> #[trigger] th1[i].thread_type == th0[i].thread_type,
    ensures
        timer_threads_ok(t1, th1),
{
    assert forall|j: int| 0 <= j < t1.len() && (#[trigger] t1[j]).spec_thread() is Some implies t1[j].spec_thread()->0
        < th1.len() && th1[t1[j].spec_thread()->0 as int].thread_type == ThreadType::Rt by {
        assert(t1[j].spec_thread() == t0[j].spec_thread());
        assert(t0[j].spec_thread() is Some);
        let t = t0[j].spec_thread()->0;
        assert(th1[t as int].thread_type == th0[t as int].thread_type);
    }
}

/// The kernel's scheduling state: the timer queue, the CFS run queue, the
/// threads, the running thread, and the timer chosen by the last SysTick.
pub struct Scheduler {
    ktimers: KTimerQueue,
    run_queue: RunQueue,
    threads: Vec<Thread>,
    current: Option<usize>,
    next_ktimer: Option<usize>,
    cfs_timer: Option<usize>,
}

impl Scheduler {
    /// The timer queue.
    pub closed spec fn ktimers(&self) -> KTimerQueue {
        self.ktimers
    }

    /// The run queue as `(vruntime, id)` entries, in order.
    pub closed spec fn queue(&self) -> Seq<Entry> {
        self.run_queue.entries()
    }

    /// The priority sum of the CFS threads handed to the scheduler.
    pub closed spec fn spec_priority_sum(&self) -> u32 {
        self.run_queue.spec_priority_sum()
    }

    /// All threads, indexed by id.
    pub closed spec fn threads(&self) -> Seq<Thread> {
        self.threads@
    }

    /// The running thread.
    pub closed spec fn current(&self) -> Option<usize> {
        self.current
    }

    /// The timer that the last SysTick chose.
    pub closed spec fn spec_next_ktimer(&self) -> Option<usize> {
        self.next_ktimer
    }

    /// The CFS scheduler's timer.
    pub closed spec fn cfs_timer(&self) -> Option<usize> {
        self.cfs_timer
    }

    /// The queues are well formed and agree with the threads and timers.
    pub closed spec fn wf(&self) -> bool {
        &&& self.ktimers.wf()
        &&& self.run_queue.wf()
        &&& rq_keys_match(self.run_queue.entries(), self.threads@)
        &&& rq_links_match(self.run_queue.entries(), self.threads@)
        &&& timer_threads_ok(self.ktimers.timers(), self.threads@)
        &&& (self.current matches Some(c) ==> c < self.threads@.len())
        &&& (self.next_ktimer matches Some(k) ==> k < self.ktimers.timers().len())
        &&& (self.cfs_timer matches Some(k) ==> k < self.ktimers.timers().len())
    }

    /// What a well-formed scheduler guarantees.
    pub proof fn lemma_wf(&self)
        requires
            self.wf(),
        ensures
            self.ktimers().wf(),
            sorted(self.queue()),
            ids_distinct(self.queue()),
            self.queue().len() <= usize::MAX,
            rq_keys_match(self.queue(), self.threads()),
            rq_links_match(self.queue(), self.threads()),
            timer_threads_ok(self.ktimers().timers(), self.threads()),
            self.current() matches Some(c) ==> c < self.threads().len(),
            self.spec_next_ktimer() matches Some(k) ==> k < self.ktimers().timers().len(),
    {
        self.run_queue.tree.lemma_wf();
    }

    /// A scheduler with no threads and no timers.
    pub fn new() -> (s: Self)
        ensures
            s.wf(),
            s.threads() == Seq::<Thread>::empty(),
            s.queue() == Seq::<Entry>::empty(),
            s.spec_priority_sum() == 0,
            s.ktimers().entries() == Seq::<Entry>::empty(),
            s.ktimers().timers() == Seq::<KTimerEntity>::empty(),
            s.current() is None,
            s.spec_next_ktimer() is None,
            s.cfs_timer() is None,
    {
        Scheduler {
            ktimers: KTimerQueue::new(),
            run_queue: RunQueue::new(),
            threads: Vec::new(),
            current: None,
            next_ktimer: None,
            cfs_timer: None,
        }
    }

    /// Hand a new thread to the scheduler; it starts ready but not queued,
    /// with no ticks and no virtual runtime. Returns its id.
    pub fn add_thread(&mut self, thread_type: ThreadType, priority: u32) -> (id: usize)
        requires
            old(self).wf(),
            old(self).threads().len() < usize::MAX,
        ensures
            final(self).wf(),
            id == old(self).threads().len(),
            final(self).threads() == old(self).threads().push(
                Thread {
                    state: ThreadState::Ready,
                    thread_type,
                    sched_entity: SchedEntity {
                        sched_tick_cnt: 0,
                        vruntime: 0,
                        priority,
                        linked: false,
                    },
                },
            ),
            final(self).queue() == old(self).queue(),
            final(self).spec_priority_sum() == old(self).spec_priority_sum(),
            final(self).ktimers() == old(self).ktimers(),
            final(self).current() == old(self).current(),
            final(self).spec_next_ktimer() == old(self).spec_next_ktimer(),
            final(self).cfs_timer() == old(self).cfs_timer(),
    {
        let id = self.threads.len();
        let t = Thread {
            state: ThreadState::Ready,
            thread_type,
            sched_entity: SchedEntity::new(priority),
        };
        let ghost th0 = self.threads@;
        self.threads.push(t);
        proof {
            let th1 = self.threads@;
            let q = self.run_queue.entries();
            assert forall|k: int| 0 <= k < q.len() implies (#[trigger] q[k]).1 < th1.len() && q[k].0
                == th1[q[k].1 as int].sched_entity.vruntime by {
                assert(th1[q[k].1 as int] == th0[q[k].1 as int]);
            }
            assert forall|x: usize| x < th1.len() implies ((#[trigger] th1[x as int]).sched_entity.linked
                <==> has_id(q, x)) && (th1[x as int].sched_entity.linked ==> th1[x as int].state
                == ThreadState::Ready && th1[x as int].thread_type == ThreadType::Cfs) by {
                if x < th0.len() {
                    assert(th1[x as int] == th0[x as int]);
                } else {
                    if has_id(q, x) {
                        let k = choose|k: int| 0 <= k < q.len() && q[k].1 == x;
                        assert(q[k].1 < th0.len());
                    }
                }
            }
            let tm = self.ktimers.timers();
            lemma_timer_threads_frame(tm, tm, th0, th1);
        }
        id
    }

    /// The scheduling state of a thread.
    pub fn thread(&self, id: usize) -> (t: Thread)
        requires
            id < self.threads().len(),
        ensures
            t == self.threads()[id as int],
    {
        self.threads[id]
    }

    /// The number of threads handed to the scheduler.
    pub fn thread_count(&self) -> (r: usize)
        ensures
            r == self.threads().len(),
    {
        self.threads.len()
    }

    /// The timer queue.
    pub fn ktimer_queue(&self) -> (r: &KTimerQueue)
        ensures
            *r == self.ktimers(),
    {
        &self.ktimers
    }

    /// The CFS run queue.
    pub fn run_queue(&self) -> (r: &RunQueue)
        ensures
            r.entries() == self.queue(),
            r.spec_priority_sum() == self.spec_priority_sum(),
            self.wf() ==> r.wf(),
    {
        &self.run_queue
    }

    /// The running thread.
    pub fn current_thread(&self) -> (r: Option<usize>)
        ensures
            r == self.current(),
    {
        self.current
    }
}


/// The thread `t` with its run-queue mark set to `linked`.
pub open spec fn with_linked(t: Thread, linked: bool) -> Thread {
    Thread { sched_entity: SchedEntity { linked, ..t.sched_entity }, ..t }
}

impl Scheduler {
    /// Replace a thread that is not queued by one that is not queued either
    /// and has the same type.
    fn put_thread(&mut self, id: usize, t: Thread)
        requires
            old(self).wf(),
            id < old(self).threads().len(),
            !old(self).threads()[id as int].sched_entity.linked,
            !t.sched_entity.linked,
            t.thread_type == old(self).threads()[id as int].thread_type,
        ensures
            final(self).wf(),
            final(self).threads() == old(self).threads().update(id as int, t),
            final(self).queue() == old(self).queue(),
            final(self).spec_priority_sum() == old(self).spec_priority_sum(),
            final(self).ktimers() == old(self).ktimers(),
            final(self).current() == old(self).current(),
            final(self).spec_next_ktimer() == old(self).spec_next_ktimer(),
            final(self).cfs_timer() == old(self).cfs_timer(),
    {
        let ghost th0 = self.threads@;
        self.threads[id] = t;
        proof {
            let th1 = self.threads@;
            let q = self.run_queue.entries();
            assert(!has_id(q, id));
            assert forall|k: int| 0 <= k < q.len() implies (#[trigger] q[k]).1 < th1.len() && q[k].0
                == th1[q[k].1 as int].sched_entity.vruntime by {
                if q[k].1 == id {
                    assert(has_id(q, id));
                }
            }
            assert forall|x: usize| x < th1.len() implies ((#[trigger] th1[x as int]).sched_entity.linked
                <==> has_id(q, x)) && (th1[x as int].sched_entity.linked ==> th1[x as int].state
                == ThreadState::Ready && th1[x as int].thread_type == ThreadType::Cfs) by {
                assert(th0[x as int].sched_entity.linked <==> has_id(q, x));
            }
            let tm = self.ktimers.timers();
            lemma_timer_threads_frame(tm, tm, th0, th1);
        }
    }

    /// Queue a ready CFS thread that is not queued, under its virtual runtime.
    fn rq_link(&mut self, id: usize)
        requires
            old(self).wf(),
            id < old(self).threads().len(),
            !old(self).threads()[id as int].sched_entity.linked,
            old(self).threads()[id as int].state == ThreadState::Ready,
            old(self).threads()[id as int].thread_type == ThreadType::Cfs,
            old(self).queue().len() < usize::MAX,
        ensures
            final(self).wf(),
            final(self).queue() == sorted_insert(
                old(self).queue(),
                (old(self).threads()[id as int].sched_entity.vruntime, id),
            ),
            final(self).threads() == old(self).threads().update(
                id as int,
                with_linked(old(self).threads()[id as int], true),
            ),
            final(self).spec_priority_sum() == old(self).spec_priority_sum(),
            final(self).ktimers() == old(self).ktimers(),
            final(self).current() == old(self).current(),
            final(self).spec_next_ktimer() == old(self).spec_next_ktimer(),
            final(self).cfs_timer() == old(self).cfs_timer(),
    {
        let ghost th0 = self.threads@;
        let ghost q0 = self.run_queue.entries();
        let mut t = self.threads[id];
        let key = t.sched_entity.vruntime;
        proof {
            self.run_queue.tree.lemma_wf();
            assert(!has_id(q0, id));
            lemma_upper_pos(q0, (key, id));
            lemma_insert_ids_distinct(q0, upper_pos(q0, (key, id)), (key, id));
        }
        self.run_queue.tree.insert(key, id);
        t.sched_entity.linked = true;
        self.threads[id] = t;
        proof {
            let th1 = self.threads@;
            let q = self.run_queue.entries();
            let p = upper_pos(q0, (key, id));
            assert forall|k: int| 0 <= k < q.len() implies (#[trigger] q[k]).1 < th1.len() && q[k].0
                == th1[q[k].1 as int].sched_entity.vruntime by {
                if k < p {
                    assert(q[k] == q0[k]);
                } else if k > p {
                    assert(q[k] == q0[k - 1]);
                }
            }
            assert forall|x: usize| x < th1.len() implies ((#[trigger] th1[x as int]).sched_entity.linked
                <==> has_id(q, x)) && (th1[x as int].sched_entity.linked ==> th1[x as int].state
                == ThreadState::Ready && th1[x as int].thread_type == ThreadType::Cfs) by {
                assert(th0[x as int].sched_entity.linked <==> has_id(q0, x));
            }
            let tm = self.ktimers.timers();
            lemma_timer_threads_frame(tm, tm, th0, th1);
        }
    }

    /// Take a queued thread out of the run queue.
    fn rq_unlink(&mut self, id: usize)
        requires
            old(self).wf(),
            id < old(self).threads().len(),
            old(self).threads()[id as int].sched_entity.linked,
        ensures
            final(self).wf(),
            final(self).queue() == old(self).queue().remove(pos_of(old(self).queue(), id)),
            final(self).threads() == old(self).threads().update(
                id as int,
                with_linked(old(self).threads()[id as int], false),
            ),
            final(self).spec_priority_sum() == old(self).spec_priority_sum(),
            final(self).ktimers() == old(self).ktimers(),
            final(self).current() == old(self).current(),
            final(self).spec_next_ktimer() == old(self).spec_next_ktimer(),
            final(self).cfs_timer() == old(self).cfs_timer(),
    {
        let ghost th0 = self.threads@;
        let ghost q0 = self.run_queue.entries();
        let mut t = self.threads[id];
        let key = t.sched_entity.vruntime;
        let ghost k0 = choose|k: int| 0 <= k < q0.len() && q0[k].1 == id;
        proof {
            self.run_queue.tree.lemma_wf();
            assert(has_id(q0, id));
            assert(q0[k0] == (key, id));
            lemma_pos_of(q0, k0);
            lemma_remove_keeps_order(q0, k0);
        }
        let found = self.run_queue.tree.remove(key, id);
        assert(found);
        t.sched_entity.linked = false;
        self.threads[id] = t;
        proof {
            let th1 = self.threads@;
            let q = self.run_queue.entries();
            assert forall|k: int| 0 <= k < q.len() implies (#[trigger] q[k]).1 < th1.len() && q[k].0
                == th1[q[k].1 as int].sched_entity.vruntime by {
                if k < k0 {
                    assert(q[k] == q0[k]);
                } else {
                    assert(q[k] == q0[k + 1]);
                }
                if q[k].1 == id {
                    assert(!has_id(q, id));
                }
            }
            assert forall|x: usize| x < th1.len() implies ((#[trigger] th1[x as int]).sched_entity.linked
                <==> has_id(q, x)) && (th1[x as int].sched_entity.linked ==> th1[x as int].state
                == ThreadState::Ready && th1[x as int].thread_type == ThreadType::Cfs) by {
                assert(th0[x as int].sched_entity.linked <==> has_id(q0, x));
            }
            let tm = self.ktimers.timers();
            lemma_timer_threads_frame(tm, tm, th0, th1);
        }
    }

    /// The first queued thread, if any.
    fn rq_first(&self) -> (r: Option<usize>)
        requires
            self.wf(),
        ensures
            r == (if self.queue().len() == 0 {
                None
            } else {
                Some(self.queue()[0].1)
            }),
            r matches Some(id) ==> id < self.threads().len() && self.threads()[id as int].sched_entity.linked,
    {
        match self.run_queue.tree.first() {
            None => None,
            Some(e) => {
                proof {
                    let q = self.run_queue.entries();
                    assert(q[0] == e);
                    assert(has_id(q, e.1));
                    assert(self.threads@[e.1 as int].sched_entity.linked <==> has_id(q, e.1));
                }
                Some(e.1)
            },
        }
    }
}

/// One step of the traversal of the scheduler-visible threads: the running
/// thread first, then the run queue in order.
pub open spec fn spec_traverse(q: Seq<Entry>, current: Option<usize>, cursor: Option<usize>) -> Option<usize> {
    let head = if q.len() == 0 {
        None
    } else {
        Some(q[0].1)
    };
    match cursor {
        None => match current {
            Some(c) => Some(c),
            None => head,
        },
        Some(t) => if current == Some(t) {
            head
        } else if has_id(q, t) && pos_of(q, t) + 1 < q.len() {
            Some(q[pos_of(q, t) + 1].1)
        } else {
            None
        },
    }
}

/// The thread `t` in state `state`.
pub open spec fn with_state(t: Thread, state: ThreadState) -> Thread {
    Thread { state, ..t }
}

impl Scheduler {
    /// Enqueue a ready CFS thread into the run queue under its virtual runtime
    /// and add its priority to the priority sum.
    pub fn enqueue_thread(&mut self, id: usize)
        requires
            old(self).wf(),
            id < old(self).threads().len(),
            !old(self).threads()[id as int].sched_entity.linked,
            old(self).threads()[id as int].thread_type == ThreadType::Cfs,
            old(self).spec_priority_sum() + old(self).threads()[id as int].sched_entity.priority <= u32::MAX,
            old(self).queue().len() < usize::MAX,
        ensures
            final(self).wf(),
            final(self).threads() == old(self).threads().update(
                id as int,
                with_linked(with_state(old(self).threads()[id as int], ThreadState::Ready), true),
            ),
            final(self).queue() == sorted_insert(
                old(self).queue(),
                (old(self).threads()[id as int].sched_entity.vruntime, id),
            ),
            final(self).spec_priority_sum() == old(self).spec_priority_sum()
                + old(self).threads()[id as int].sched_entity.priority,
            final(self).ktimers() == old(self).ktimers(),
            final(self).current() == old(self).current(),
            final(self).spec_next_ktimer() == old(self).spec_next_ktimer(),
            final(self).cfs_timer() == old(self).cfs_timer(),
    {
        let mut t = self.threads[id];
        t.state = ThreadState::Ready;
        t.sched_entity.reset_links();
        self.put_thread(id, t);
        self.rq_link(id);
        self.run_queue.priority_sum = self.run_queue.priority_sum + t.sched_entity.priority;
    }

    /// Remove a thread from the run queue if it is currently queued, and
    /// then take its priority off the priority sum; a thread that is not
    /// queued leaves everything as it is.
    pub fn dequeue_thread(&mut self, id: usize)
        requires
            old(self).wf(),
            id < old(self).threads().len(),
            old(self).threads()[id as int].sched_entity.linked ==> old(self).spec_priority_sum()
                >= old(self).threads()[id as int].sched_entity.priority,
        ensures
            final(self).wf(),
            old(self).threads()[id as int].sched_entity.linked ==> final(self).queue()
                == old(self).queue().remove(pos_of(old(self).queue(), id)) && final(self).threads()
                == old(self).threads().update(id as int, with_linked(old(self).threads()[id as int], false))
                && final(self).spec_priority_sum() == old(self).spec_priority_sum()
                - old(self).threads()[id as int].sched_entity.priority,
            !old(self).threads()[id as int].sched_entity.linked ==> final(self).queue() == old(self).queue()
                && final(self).threads() == old(self).threads() && final(self).spec_priority_sum()
                == old(self).spec_priority_sum(),
            final(self).ktimers() == old(self).ktimers(),
            final(self).current() == old(self).current(),
            final(self).spec_next_ktimer() == old(self).spec_next_ktimer(),
            final(self).cfs_timer() == old(self).cfs_timer(),
    {
        let t = self.threads[id];
        if t.sched_entity.linked {
            self.rq_unlink(id);
            self.run_queue.priority_sum = self.run_queue.priority_sum - t.sched_entity.priority;
        }
    }

    /// Record the running thread.
    pub fn init_current(&mut self, id: usize)
        requires
            old(self).wf(),
            id < old(self).threads().len(),
        ensures
            final(self).wf(),
            final(self).current() == Some(id),
            final(self).threads() == old(self).threads(),
            final(self).queue() == old(self).queue(),
            final(self).spec_priority_sum() == old(self).spec_priority_sum(),
            final(self).ktimers() == old(self).ktimers(),
            final(self).spec_next_ktimer() == old(self).spec_next_ktimer(),
            final(self).cfs_timer() == old(self).cfs_timer(),
    {
        self.current = Some(id);
    }

    /// Make a thread the running one: take it out of the run queue and mark
    /// it running. The switch onto its stack is the caller's.
    pub fn spawn_main_thread(&mut self, id: usize)
        requires
            old(self).wf(),
            id < old(self).threads().len(),
        ensures
            final(self).wf(),
            final(self).current() == Some(id),
            final(self).threads() == old(self).threads().update(
                id as int,
                with_state(with_linked(old(self).threads()[id as int], false), ThreadState::Running),
            ),
            old(self).threads()[id as int].sched_entity.linked ==> final(self).queue() == old(self).queue().remove(
                pos_of(old(self).queue(), id),
            ),
            !old(self).threads()[id as int].sched_entity.linked ==> final(self).queue() == old(self).queue(),
            final(self).spec_priority_sum() == old(self).spec_priority_sum(),
            final(self).ktimers() == old(self).ktimers(),
            final(self).spec_next_ktimer() == old(self).spec_next_ktimer(),
            final(self).cfs_timer() == old(self).cfs_timer(),
    {
        if self.threads[id].sched_entity.linked {
            self.rq_unlink(id);
        }
        let mut t = self.threads[id];
        t.state = ThreadState::Running;
        self.put_thread(id, t);
        self.current = Some(id);
    }

    /// Traverse the scheduler-visible threads: first the running thread, then
    /// the run queue in ascending vruntime order.
    ///
    /// With `None`, returns the running thread when there is one, else the
    /// first queued thread. With the running thread, returns the first queued
    /// thread. With a queued thread, returns the one after it; `None` after
    /// the last one, or for a thread that is neither running nor queued.
    pub fn traverse_run_queue(&self, cursor: Option<usize>) -> (r: Option<usize>)
        requires
            self.wf(),
        ensures
            r == spec_traverse(self.queue(), self.current(), cursor),
    {
        match cursor {
            None => match self.current {
                Some(c) => Some(c),
                None => self.rq_first(),
            },
            Some(t) => {
                let is_current = match self.current {
                    Some(c) => c == t,
                    None => false,
                };
                if is_current {
                    self.rq_first()
                } else if t >= self.threads.len() || !self.threads[t].sched_entity.linked {
                    proof {
                        let q = self.run_queue.entries();
                        if has_id(q, t) {
                            let k = choose|k: int| 0 <= k < q.len() && q[k].1 == t;
                            assert(q[k].1 < self.threads@.len());
                            assert(self.threads@[t as int].sched_entity.linked <==> has_id(q, t));
                        }
                    }
                    None
                } else {
                    let key = self.threads[t].sched_entity.vruntime;
                    proof {
                        let q = self.run_queue.entries();
                        self.run_queue.tree.lemma_wf();
                        assert(self.threads@[t as int].sched_entity.linked <==> has_id(q, t));
                        let k = choose|k: int| 0 <= k < q.len() && q[k].1 == t;
                        assert(q[k] == (key, t));
                        lemma_pos_of(q, k);
                    }
                    match self.run_queue.tree.next(key, t) {
                        None => None,
                        Some(e) => Some(e.1),
                    }
                }
            },
        }
    }
}

/// The timer queue's update keeps every timer's thread.
proof fn lemma_threads_kept(t0: Seq<KTimerEntity>, t1: Seq<KTimerEntity>, id: usize)
    requires
        unchanged_except(t0, t1, id),
        id < t0.len() ==> t1[id as int].spec_thread() == t0[id as int].spec_thread(),
    ensures
        forall|j: int| 0 <= j < t0.len() ==> #[trigger] t1[j].spec_thread() == t0[j].spec_thread(),
{
    assert forall|j: int| 0 <= j < t0.len() implies #[trigger] t1[j].spec_thread() == t0[j].spec_thread() by {
        if j != id {
            assert(t1[j] == t0[j]);
        }
    }
}

impl Scheduler {
    /// Reset the timer queue to an empty one. The timers themselves stay,
    /// unlinked, under their ids, and the timer chosen by the last SysTick
    /// stays chosen.
    pub fn init_ktimer_queue(&mut self)
        requires
            old(self).wf(),
        ensures
            final(self).wf(),
            final(self).ktimers().entries() == Seq::<Entry>::empty(),
            final(self).ktimers().timers().len() == old(self).ktimers().timers().len(),
            forall|j: int|
                0 <= j < old(self).ktimers().timers().len() ==> same_but_linked(
                    #[trigger] final(self).ktimers().timers()[j],
                    old(self).ktimers().timers()[j],
                ) && !final(self).ktimers().timers()[j].spec_linked(),
            final(self).spec_next_ktimer() == old(self).spec_next_ktimer(),
            final(self).cfs_timer() == old(self).cfs_timer(),
            final(self).threads() == old(self).threads(),
            final(self).queue() == old(self).queue(),
            final(self).spec_priority_sum() == old(self).spec_priority_sum(),
            final(self).current() == old(self).current(),
    {
        let ghost t0 = self.ktimers.timers();
        self.ktimers.clear();
        proof {
            let t1 = self.ktimers.timers();
            assert forall|j: int| 0 <= j < t1.len() && (#[trigger] t1[j]).spec_thread() is Some implies t1[j].spec_thread()->0
                < self.threads@.len() && self.threads@[t1[j].spec_thread()->0 as int].thread_type == ThreadType::Rt by {
                assert(same_but_linked(t1[j], t0[j]));
            }
        }
    }

    /// Hand a timer to the timer queue and link it; returns its id.
    pub fn enqueue_ktimer(&mut self, entity: KTimerEntity) -> (id: usize)
        requires
            old(self).wf(),
            entity.spec_thread() matches Some(t) ==> t < old(self).threads().len()
                && old(self).threads()[t as int].thread_type == ThreadType::Rt,
            old(self).ktimers().timers().len() < usize::MAX,
            old(self).ktimers().entries().len() < usize::MAX,
        ensures
            final(self).wf(),
            id == old(self).ktimers().timers().len(),
            final(self).ktimers().timers().len() == old(self).ktimers().timers().len() + 1,
            forall|j: int| 0 <= j < id ==> #[trigger] final(self).ktimers().timers()[j] == old(self).ktimers().timers()[j],
            same_but_linked(final(self).ktimers().timers()[id as int], entity),
            final(self).ktimers().timers()[id as int].spec_linked(),
            final(self).ktimers().entries() == sorted_insert(
                old(self).ktimers().entries(),
                (entity.spec_deadline() as u64, id),
            ),
            final(self).threads() == old(self).threads(),
            final(self).queue() == old(self).queue(),
            final(self).spec_priority_sum() == old(self).spec_priority_sum(),
            final(self).current() == old(self).current(),
            final(self).spec_next_ktimer() == old(self).spec_next_ktimer(),
            final(self).cfs_timer() == old(self).cfs_timer(),
    {
        let ghost t0 = self.ktimers.timers();
        let id = self.ktimers.add(entity);
        let ghost t1 = self.ktimers.timers();
        self.ktimers.insert(id);
        proof {
            let t2 = self.ktimers.timers();
            let th = self.threads@;
            assert forall|j: int| 0 <= j < t2.len() && (#[trigger] t2[j]).spec_thread() is Some implies t2[j].spec_thread()->0
                < th.len() && th[t2[j].spec_thread()->0 as int].thread_type == ThreadType::Rt by {
                if j != id {
                    assert(t2[j] == t1[j]);
                    assert(t1[j] == t0[j]);
                }
            }
        }
        id
    }

    /// Reset the run queue to an empty state with a zero priority sum; no
    /// thread is queued any more.
    fn init_cfs_rq(&mut self)
        requires
            old(self).wf(),
        ensures
            final(self).wf(),
            final(self).queue() == Seq::<Entry>::empty(),
            final(self).spec_priority_sum() == 0,
            final(self).threads().len() == old(self).threads().len(),
            forall|i: int| 0 <= i < old(self).threads().len() ==> #[trigger] final(self).threads()[i]
                == with_linked(old(self).threads()[i], false),
            final(self).ktimers() == old(self).ktimers(),
            final(self).current() == old(self).current(),
            final(self).spec_next_ktimer() == old(self).spec_next_ktimer(),
            final(self).cfs_timer() == old(self).cfs_timer(),
    {
        self.run_queue = RunQueue::new();
        let ghost th0 = self.threads@;
        let mut i: usize = 0;
        while i < self.threads.len()
            invariant
                old(self).wf(),
                th0 == old(self).threads@,
                self.ktimers == old(self).ktimers,
                self.cfs_timer == old(self).cfs_timer,
                self.current == old(self).current,
                self.next_ktimer == old(self).next_ktimer,
                self.run_queue.wf(),
                self.run_queue.entries() == Seq::<Entry>::empty(),
                self.run_queue.spec_priority_sum() == 0,
                self.threads@.len() == th0.len(),
                0 <= i <= th0.len(),
                forall|j: int| 0 <= j < i ==> #[trigger] self.threads@[j] == with_linked(th0[j], false),
                forall|j: int| i <= j < th0.len() ==> #[trigger] self.threads@[j] == th0[j],
            decreases th0.len() - i,
        {
            let mut t = self.threads[i];
            t.sched_entity.linked = false;
            self.threads[i] = t;
            i = i + 1;
        }
        proof {
            let th = self.threads@;
            let q = self.run_queue.entries();
            let tm = self.ktimers.timers();
            assert forall|j: int| 0 <= j < tm.len() && (#[trigger] tm[j]).spec_thread() is Some implies tm[j].spec_thread()->0
                < th.len() && th[tm[j].spec_thread()->0 as int].thread_type == ThreadType::Rt by {
                let t = tm[j].spec_thread()->0;
                assert(th[t as int] == with_linked(th0[t as int], false));
            }
            assert forall|x: usize| x < th.len() implies ((#[trigger] th[x as int]).sched_entity.linked
                <==> has_id(q, x)) && (th[x as int].sched_entity.linked ==> th[x as int].state
                == ThreadState::Ready && th[x as int].thread_type == ThreadType::Cfs) by {
                assert(th[x as int] == with_linked(th0[x as int], false));
            }
        }
    }

    /// Initialize the CFS scheduler: empty the run queue, zero the priority
    /// sum, and link a fresh CFS timer whose period and first deadline are
    /// `ticks`, in place of the previous CFS timer.
    ///
    /// `ticks` is expressed in raw timer ticks because the board owns the
    /// clock configuration.
    pub fn init_cfs(&mut self, ticks: u32)
        requires
            old(self).wf(),
            old(self).ktimers().timers().len() < usize::MAX,
            old(self).ktimers().entries().len() < usize::MAX,
        ensures
            final(self).wf(),
            final(self).queue() == Seq::<Entry>::empty(),
            final(self).spec_priority_sum() == 0,
            final(self).threads().len() == old(self).threads().len(),
            forall|i: int| 0 <= i < old(self).threads().len() ==> #[trigger] final(self).threads()[i]
                == with_linked(old(self).threads()[i], false),
            final(self).cfs_timer() == Some(old(self).ktimers().timers().len() as usize),
            final(self).ktimers().timers().len() == old(self).ktimers().timers().len() + 1,
            ({
                let k = old(self).ktimers().timers().len() as int;
                let t = final(self).ktimers().timers()[k];
                &&& t.spec_duration() == ticks
                &&& t.spec_deadline() == ticks
                &&& t.spec_timer_type() == KTimerType::Cfs
                &&& t.spec_thread() is None
                &&& t.spec_linked()
            }),
            ({
                let e0 = old(self).ktimers().entries();
                let kept = match old(self).cfs_timer() {
                    Some(c) => if has_id(e0, c) {
                        e0.remove(pos_of(e0, c))
                    } else {
                        e0
                    },
                    None => e0,
                };
                final(self).ktimers().entries() == sorted_insert(
                    kept,
                    (ticks as u64, old(self).ktimers().timers().len() as usize),
                )
            }),
            final(self).current() == old(self).current(),
            final(self).spec_next_ktimer() == old(self).spec_next_ktimer(),
    {
        let ghost th0 = self.threads@;
        self.init_cfs_rq();
        let ghost t0 = self.ktimers.timers();
        match self.cfs_timer {
            Some(c) => {
                self.ktimers.remove(c);
            },
            None => {},
        }
        let ghost t1 = self.ktimers.timers();
        proof {
            self.ktimers.lemma_wf();
            assert(t1.len() == t0.len());
            assert forall|j: int| 0 <= j < t0.len() implies #[trigger] t1[j].spec_thread() == t0[j].spec_thread() by {
                if let Some(c) = self.cfs_timer {
                    if j != c {
                        assert(t1[j] == t0[j]);
                    }
                }
            }
        }
        let entity = KTimerEntity::new(ticks, ticks, KTimerType::Cfs, None);
        let id = self.ktimers.add(entity);
        let ghost t2 = self.ktimers.timers();
        self.ktimers.insert(id);
        self.cfs_timer = Some(id);
        proof {
            let t3 = self.ktimers.timers();
            let th = self.threads@;
            let q = self.run_queue.entries();
            assert forall|j: int| 0 <= j < t3.len() && (#[trigger] t3[j]).spec_thread() is Some implies t3[j].spec_thread()->0
                < th.len() && th[t3[j].spec_thread()->0 as int].thread_type == ThreadType::Rt by {
                if j != id {
                    assert(t3[j] == t2[j]);
                    assert(t2[j] == t1[j]);
                    assert(t1[j].spec_thread() == t0[j].spec_thread());
                    assert(t0[j].spec_thread() is Some);
                    let t = t0[j].spec_thread()->0;
                    assert(th[t as int] == with_linked(th0[t as int], false));
                }
            }
            assert forall|x: usize| x < th.len() implies ((#[trigger] th[x as int]).sched_entity.linked
                <==> has_id(q, x)) && (th[x as int].sched_entity.linked ==> th[x as int].state
                == ThreadState::Ready && th[x as int].thread_type == ThreadType::Cfs) by {
                assert(th[x as int] == with_linked(th0[x as int], false));
            }
        }
    }

    /// Lower the deadline of every linked timer by `elapsed` (see
    /// `KTimerQueue::advance`).
    pub fn advance_ktimers(&mut self, elapsed: u32)
        requires
            old(self).wf(),
        ensures
            final(self).wf(),
            final(self).ktimers().entries() == advanced(old(self).ktimers().entries(), elapsed as u64),
            final(self).ktimers().timers().len() == old(self).ktimers().timers().len(),
            forall|j: int| 0 <= j < old(self).ktimers().timers().len() ==> lowered(
                old(self).ktimers().timers()[j],
                #[trigger] final(self).ktimers().timers()[j],
                elapsed,
            ),
            forall|j: int|
                0 <= j < old(self).ktimers().timers().len() && !old(self).ktimers().timers()[j].spec_linked()
                    ==> #[trigger] final(self).ktimers().timers()[j] == old(self).ktimers().timers()[j],
            final(self).threads() == old(self).threads(),
            final(self).queue() == old(self).queue(),
            final(self).spec_priority_sum() == old(self).spec_priority_sum(),
            final(self).current() == old(self).current(),
            final(self).spec_next_ktimer() == old(self).spec_next_ktimer(),
            final(self).cfs_timer() == old(self).cfs_timer(),
    {
        let ghost t0 = self.ktimers.timers();
        self.ktimers.advance(elapsed);
        proof {
            let t1 = self.ktimers.timers();
            assert forall|j: int| 0 <= j < t0.len() implies #[trigger] t1[j].spec_thread() == t0[j].spec_thread() by {
                assert(lowered(t0[j], t1[j], elapsed));
            }
            lemma_timer_threads_frame(t0, t1, self.threads@, self.threads@);
        }
    }

    /// Restart the timer that expires first and return the one that now
    /// comes first (see `KTimerQueue::dispatch_expired`).
    pub fn dispatch_expired_ktimer(&mut self) -> (r: Option<usize>)
        requires
            old(self).wf(),
        ensures
            final(self).wf(),
            old(self).ktimers().entries().len() == 0 ==> r is None && final(self).ktimers().entries()
                == old(self).ktimers().entries() && final(self).ktimers().timers() == old(self).ktimers().timers(),
            old(self).ktimers().entries().len() > 0 ==> ({
                let id = old(self).ktimers().entries()[0].1;
                let t = old(self).ktimers().timers()[id as int];
                &&& final(self).ktimers().entries() == sorted_insert(
                    old(self).ktimers().entries().drop_first(),
                    (t.spec_duration() as u64, id),
                )
                &&& unchanged_except(old(self).ktimers().timers(), final(self).ktimers().timers(), id)
                &&& same_but_deadline(final(self).ktimers().timers()[id as int], t)
                &&& final(self).ktimers().timers()[id as int].spec_deadline() == t.spec_duration()
                &&& r == Some(final(self).ktimers().entries()[0].1)
            }),
            r matches Some(k) ==> k < final(self).ktimers().timers().len(),
            final(self).threads() == old(self).threads(),
            final(self).queue() == old(self).queue(),
            final(self).spec_priority_sum() == old(self).spec_priority_sum(),
            final(self).current() == old(self).current(),
            final(self).spec_next_ktimer() == old(self).spec_next_ktimer(),
            final(self).cfs_timer() == old(self).cfs_timer(),
    {
        let ghost t0 = self.ktimers.timers();
        let r = self.ktimers.dispatch_expired();
        proof {
            let t1 = self.ktimers.timers();
            old(self).ktimers.lemma_wf();
            self.ktimers.lemma_wf();
            if old(self).ktimers.entries().len() > 0 {
                lemma_threads_kept(t0, t1, old(self).ktimers.entries()[0].1);
            } else {
                assert forall|j: int| 0 <= j < t0.len() implies #[trigger] t1[j].spec_thread() == t0[j].spec_thread() by {}
            }
            lemma_timer_threads_frame(t0, t1, self.threads@, self.threads@);
        }
        r
    }

    /// Handle one SysTick: lower every linked timer's deadline by the ticks
    /// elapsed since the last interrupt, restart the timer that expires first,
    /// and remember the timer that now comes first. Returns whether a context
    /// switch should be requested.
    pub fn handle_systick(&mut self, elapsed: u32) -> (r: bool)
        requires
            old(self).wf(),
        ensures
            final(self).wf(),
            r == (old(self).ktimers().entries().len() > 0),
            final(self).spec_next_ktimer() == (if r {
                Some(final(self).ktimers().entries()[0].1)
            } else {
                None
            }),
            !r ==> final(self).ktimers().entries() == old(self).ktimers().entries()
                && final(self).ktimers().timers() == old(self).ktimers().timers(),
            r ==> ({
                let e0 = old(self).ktimers().entries();
                let t0 = old(self).ktimers().timers();
                let a = advanced(e0, elapsed as u64);
                let id = a[0].1;
                &&& final(self).ktimers().entries() == sorted_insert(
                    a.drop_first(),
                    (t0[id as int].spec_duration() as u64, id),
                )
                &&& final(self).ktimers().timers().len() == t0.len()
                &&& same_but_deadline(final(self).ktimers().timers()[id as int], t0[id as int])
                &&& final(self).ktimers().timers()[id as int].spec_deadline() == t0[id as int].spec_duration()
                &&& forall|j: int|
                    0 <= j < t0.len() && j != id ==> lowered(
                        t0[j],
                        #[trigger] final(self).ktimers().timers()[j],
                        elapsed,
                    )
            }),
            final(self).threads() == old(self).threads(),
            final(self).queue() == old(self).queue(),
            final(self).spec_priority_sum() == old(self).spec_priority_sum(),
            final(self).current() == old(self).current(),
            final(self).cfs_timer() == old(self).cfs_timer(),
    {
        let ghost t0 = self.ktimers.timers();
        let ghost e0 = self.ktimers.entries();
        proof {
            self.ktimers.lemma_wf();
            lemma_advanced(e0, elapsed as u64);
        }
        self.advance_ktimers(elapsed);
        let ghost t1 = self.ktimers.timers();
        let ghost a = self.ktimers.entries();
        proof {
            self.ktimers.lemma_wf();
        }
        let next = self.dispatch_expired_ktimer();
        proof {
            let t2 = self.ktimers.timers();
            assert forall|j: int| 0 <= j < t0.len() implies #[trigger] t2[j].spec_thread() == t0[j].spec_thread() by {
                assert(lowered(t0[j], t1[j], elapsed));
                if a.len() > 0 {
                    let id = a[0].1;
                    if j != id {
                        assert(t2[j] == t1[j]);
                    }
                }
            }
            lemma_timer_threads_frame(t0, t2, self.threads@, self.threads@);
            if e0.len() == 0 {
                assert(a =~= e0);
                assert forall|j: int| 0 <= j < t0.len() implies #[trigger] t1[j] == t0[j] by {
                    let ju = j as usize;
                    assert(t0[ju as int].spec_linked() <==> has_id(e0, ju));
                }
                assert(t1 =~= t0);
            }
            if e0.len() > 0 {
                let id = a[0].1;
                assert(id < t0.len());
                assert(lowered(t0[id as int], t1[id as int], elapsed));
                assert(same_but_deadline(t2[id as int], t0[id as int]));
                self.ktimers.lemma_wf();
                assert(self.ktimers.entries()[0].1 < t2.len());
                assert forall|j: int| 0 <= j < t0.len() && j != id implies lowered(
                    t0[j],
                    #[trigger] t2[j],
                    elapsed,
                ) by {
                    assert(lowered(t0[j], t1[j], elapsed));
                    assert(t2[j] == t1[j]);
                }
            }
        }
        self.next_ktimer = next;
        next.is_some()
    }
}

/// A CFS thread charged with `elapsed` more ticks; with a nonzero priority
/// sum its virtual runtime is recomputed from its ticks.
pub open spec fn charged(t: Thread, elapsed: u32, priority_sum: u32) -> Thread {
    let ticks = (t.sched_entity.sched_tick_cnt + elapsed) as u32;
    Thread {
        sched_entity: SchedEntity {
            sched_tick_cnt: ticks,
            vruntime: if priority_sum > 0 {
                spec_vruntime(ticks, t.sched_entity.priority, priority_sum)
            } else {
                t.sched_entity.vruntime
            },
            ..t.sched_entity
        },
        ..t
    }
}

/// The scheduler's decision at a PendSV, given the threads `th`, the run
/// queue `q`, the priority sum `sum`, the running thread `current`, the timer
/// chosen by the last SysTick and the ticks since the last interrupt.
/// Returns whether the SysTick is to be programmed next, and the new
/// threads, run queue and running thread.
///
/// - A running CFS thread is charged with the elapsed ticks and its virtual
///   runtime recomputed; with a zero priority sum nothing else happens.
/// - CFS timer, CFS thread running: the first queued thread preempts it when
///   its virtual runtime is smaller; the preempted thread is queued again.
/// - CFS timer, RT thread running: the first queued thread takes over.
/// - RT timer, CFS thread running: the timer's thread takes over and the CFS
///   thread is queued again.
/// - RT timer, RT thread running: the timer's thread preempts the running
///   one, which becomes ready.
pub open spec fn spec_schedule(
    th: Seq<Thread>,
    q: Seq<Entry>,
    sum: u32,
    current: Option<usize>,
    timer: Option<KTimerEntity>,
    elapsed: u32,
) -> (bool, Seq<Thread>, Seq<Entry>, Option<usize>) {
    if timer is None || current is None || th[current->0 as int].state != ThreadState::Running {
        (true, th, q, current)
    } else {
        let c = current->0;
        let cur = th[c as int];
        let cfs_cur = cur.thread_type == ThreadType::Cfs;
        let th1 = if cfs_cur {
            th.update(c as int, charged(cur, elapsed, sum))
        } else {
            th
        };
        let vr = th1[c as int].sched_entity.vruntime;
        let kt = timer->0;
        if cfs_cur && sum == 0 {
            (false, th1, q, current)
        } else if kt.spec_timer_type() == KTimerType::Cfs {
            if q.len() == 0 {
                (true, th1, q, current)
            } else {
                let n = q[0].1;
                if cfs_cur {
                    if vr > th[n as int].sched_entity.vruntime {
                        (
                            true,
                            th1.update(
                                n as int,
                                with_state(with_linked(th[n as int], false), ThreadState::Running),
                            ).update(
                                c as int,
                                with_linked(with_state(th1[c as int], ThreadState::Ready), true),
                            ),
                            sorted_insert(q.drop_first(), (vr, c)),
                            Some(n),
                        )
                    } else {
                        (true, th1, q, current)
                    }
                } else {
                    (
                        true,
                        th.update(c as int, with_state(cur, ThreadState::Ready)).update(
                            n as int,
                            with_state(with_linked(th[n as int], false), ThreadState::Running),
                        ),
                        q.drop_first(),
                        Some(n),
                    )
                }
            }
        } else {
            match kt.spec_thread() {
                None => (false, th1, q, current),
                Some(t) => if cfs_cur {
                    (
                        true,
                        th1.update(
                            c as int,
                            with_linked(with_state(th1[c as int], ThreadState::Ready), true),
                        ).update(t as int, with_state(th[t as int], ThreadState::Running)),
                        sorted_insert(q, (vr, c)),
                        Some(t),
                    )
                } else {
                    (
                        true,
                        th.update(c as int, with_state(cur, ThreadState::Ready)).update(
                            t as int,
                            with_state(th[t as int], ThreadState::Running),
                        ),
                        q,
                        Some(t),
                    )
                },
            }
        }
    }
}

/// Charging the running CFS thread with `elapsed` ticks fits its counter.
pub open spec fn charge_fits(
    th: Seq<Thread>,
    current: Option<usize>,
    timer: Option<KTimerEntity>,
    elapsed: u32,
) -> bool {
    match current {
        Some(c) => timer is Some && th[c as int].state == ThreadState::Running && th[c as int].thread_type
            == ThreadType::Cfs ==> th[c as int].sched_entity.sched_tick_cnt + elapsed <= u32::MAX,
        None => true,
    }
}

/// The timer the last SysTick chose, if any.
pub open spec fn chosen_timer(s: Scheduler) -> Option<KTimerEntity> {
    match s.spec_next_ktimer() {
        Some(k) => Some(s.ktimers().timers()[k as int]),
        None => None,
    }
}

impl Scheduler {
    /// The scheduler's decision at a PendSV, without programming the SysTick;
    /// returns whether the SysTick is to be programmed.
    fn pick_next(&mut self, elapsed: u32) -> (program: bool)
        requires
            old(self).wf(),
            charge_fits(old(self).threads(), old(self).current(), chosen_timer(*old(self)), elapsed),
            old(self).queue().len() < usize::MAX,
        ensures
            final(self).wf(),
            (program, final(self).threads(), final(self).queue(), final(self).current()) == spec_schedule(
                old(self).threads(),
                old(self).queue(),
                old(self).spec_priority_sum(),
                old(self).current(),
                chosen_timer(*old(self)),
                elapsed,
            ),
            final(self).ktimers() == old(self).ktimers(),
            final(self).spec_priority_sum() == old(self).spec_priority_sum(),
            final(self).spec_next_ktimer() == old(self).spec_next_ktimer(),
            final(self).cfs_timer() == old(self).cfs_timer(),
    {
        let k = match self.next_ktimer {
            None => {
                return true;
            },
            Some(k) => k,
        };
        let c = match self.current {
            None => {
                return true;
            },
            Some(c) => c,
        };
        let mut ct = self.threads[c];
        match ct.state {
            ThreadState::Ready => {
                return true;
            },
            ThreadState::Running => {},
        }
        proof {
            let q = self.run_queue.entries();
            assert(self.threads@[c as int].sched_entity.linked <==> has_id(q, c));
            self.run_queue.tree.lemma_wf();
        }
        let cfs_cur = match ct.thread_type {
            ThreadType::Cfs => true,
            ThreadType::Rt => false,
        };
        if cfs_cur {
            ct.sched_entity.sched_tick_cnt = ct.sched_entity.sched_tick_cnt + elapsed;
            let sum = self.run_queue.priority_sum;
            if sum == 0 {
                self.put_thread(c, ct);
                return false;
            }
            ct.sched_entity.vruntime = compute_vruntime(
                ct.sched_entity.sched_tick_cnt,
                ct.sched_entity.priority,
                sum,
            );
            self.put_thread(c, ct);
        }
        let timer = *self.ktimers.entity(k);
        match timer.timer_type() {
            KTimerType::Cfs => {
                match self.rq_first() {
                    None => {},
                    Some(n) => {
                        let nt = self.threads[n];
                        if cfs_cur {
                            if ct.sched_entity.vruntime > nt.sched_entity.vruntime {
                                proof {
                                    lemma_pos_of(self.run_queue.entries(), 0);
                                }
                                self.rq_unlink(n);
                                let mut nt2 = self.threads[n];
                                nt2.state = ThreadState::Running;
                                self.put_thread(n, nt2);
                                let mut ct2 = self.threads[c];
                                ct2.state = ThreadState::Ready;
                                self.put_thread(c, ct2);
                                self.rq_link(c);
                                self.current = Some(n);
                                proof {
                                    assert(self.run_queue.entries() =~= sorted_insert(
                                        old(self).run_queue.entries().drop_first(),
                                        (ct.sched_entity.vruntime, c),
                                    ));
                                }
                            }
                        } else {
                            proof {
                                lemma_pos_of(self.run_queue.entries(), 0);
                            }
                            self.rq_unlink(n);
                            let mut ct2 = self.threads[c];
                            ct2.state = ThreadState::Ready;
                            self.put_thread(c, ct2);
                            let mut nt2 = self.threads[n];
                            nt2.state = ThreadState::Running;
                            self.put_thread(n, nt2);
                            self.current = Some(n);
                            proof {
                                assert(old(self).run_queue.entries().remove(0) =~= old(self).run_queue.entries().drop_first());
                            }
                        }
                    },
                }
            },
            KTimerType::Rt => {
                match timer.thread() {
                    None => {
                        return false;
                    },
                    Some(t) => {
                        proof {
                            let tm = self.ktimers.timers();
                            assert(tm[k as int].spec_thread() is Some);
                            assert(self.threads@[t as int].sched_entity.linked <==> has_id(self.run_queue.entries(), t));
                        }
                        if cfs_cur {
                            let mut ct2 = self.threads[c];
                            ct2.state = ThreadState::Ready;
                            self.put_thread(c, ct2);
                            self.rq_link(c);
                            let mut tt = self.threads[t];
                            tt.state = ThreadState::Running;
                            self.put_thread(t, tt);
                        } else {
                            let mut ct2 = self.threads[c];
                            ct2.state = ThreadState::Ready;
                            self.put_thread(c, ct2);
                            let mut tt = self.threads[t];
                            tt.state = ThreadState::Running;
                            self.put_thread(t, tt);
                        }
                        self.current = Some(t);
                    },
                }
            },
        }
        true
    }
}

/// What programming the SysTick does to the timer queue (as
/// `KTimerQueue::program_next_systick` states it): the timer that expires
/// first is restarted with its full period, put back in order, and that
/// period is the value for the reload register.
pub open spec fn programmed(
    e0: Seq<Entry>,
    t0: Seq<KTimerEntity>,
    r: Option<u32>,
    e1: Seq<Entry>,
    t1: Seq<KTimerEntity>,
) -> bool {
    if e0.len() == 0 {
        r is None && e1 == e0 && t1 == t0
    } else {
        let id = e0[0].1;
        let t = t0[id as int];
        &&& r == Some(t.spec_duration())
        &&& e1 == sorted_insert(e0.drop_first(), (t.spec_duration() as u64, id))
        &&& unchanged_except(t0, t1, id)
        &&& same_but_deadline(t1[id as int], t)
        &&& t1[id as int].spec_deadline() == t.spec_duration()
    }
}

impl Scheduler {
    /// Run the scheduler at a PendSV: decide which thread runs next (see
    /// `spec_schedule`), then restart the timer that expires first. Returns
    /// the value to program into the SysTick reload register, or `None` when
    /// the SysTick is to be left alone.
    pub fn schedule(&mut self, elapsed: u32) -> (r: Option<u32>)
        requires
            old(self).wf(),
            charge_fits(old(self).threads(), old(self).current(), chosen_timer(*old(self)), elapsed),
            old(self).queue().len() < usize::MAX,
        ensures
            final(self).wf(),
            ({
                let d = spec_schedule(
                    old(self).threads(),
                    old(self).queue(),
                    old(self).spec_priority_sum(),
                    old(self).current(),
                    chosen_timer(*old(self)),
                    elapsed,
                );
                &&& final(self).threads() == d.1
                &&& final(self).queue() == d.2
                &&& final(self).current() == d.3
                &&& !d.0 ==> r is None && final(self).ktimers() == old(self).ktimers()
                &&& d.0 ==> programmed(
                    old(self).ktimers().entries(),
                    old(self).ktimers().timers(),
                    r,
                    final(self).ktimers().entries(),
                    final(self).ktimers().timers(),
                )
            }),
            final(self).spec_priority_sum() == old(self).spec_priority_sum(),
            final(self).spec_next_ktimer() == old(self).spec_next_ktimer(),
            final(self).cfs_timer() == old(self).cfs_timer(),
    {
        if self.pick_next(elapsed) {
            self.program_next_systick()
        } else {
            None
        }
    }

    /// Restart the timer that expires first with its full period and return
    /// that period for the SysTick reload register.
    pub fn program_next_systick(&mut self) -> (r: Option<u32>)
        requires
            old(self).wf(),
        ensures
            final(self).wf(),
            programmed(
                old(self).ktimers().entries(),
                old(self).ktimers().timers(),
                r,
                final(self).ktimers().entries(),
                final(self).ktimers().timers(),
            ),
            final(self).threads() == old(self).threads(),
            final(self).queue() == old(self).queue(),
            final(self).spec_priority_sum() == old(self).spec_priority_sum(),
            final(self).current() == old(self).current(),
            final(self).spec_next_ktimer() == old(self).spec_next_ktimer(),
            final(self).cfs_timer() == old(self).cfs_timer(),
    {
        let ghost t0 = self.ktimers.timers();
        let r = self.ktimers.program_next_systick();
        proof {
            let t1 = self.ktimers.timers();
            if old(self).ktimers.entries().len() > 0 {
                old(self).ktimers.lemma_wf();
                lemma_threads_kept(t0, t1, old(self).ktimers.entries()[0].1);
            } else {
                assert forall|j: int| 0 <= j < t0.len() implies #[trigger] t1[j].spec_thread() == t0[j].spec_thread() by {}
            }
            lemma_timer_threads_frame(t0, t1, self.threads@, self.threads@);
        }
        r
    }

    /// The deadline of the timer that expires first.
    pub fn next_ktimer_deadline(&self) -> (r: Option<u32>)
        requires
            self.wf(),
        ensures
            r == (if self.ktimers().entries().len() == 0 {
                None
            } else {
                Some(self.ktimers().entries()[0].0 as u32)
            }),
    {
        self.ktimers.next_deadline()
    }

    /// The SysTick reload value for the earliest deadline, when it fits.
    pub fn next_ktimer_reload(&self) -> (r: Option<u32>)
        requires
            self.wf(),
        ensures
            r == (if self.ktimers().entries().len() == 0 {
                None
            } else {
                spec_reload_from_ticks(self.ktimers().entries()[0].0 as u32)
            }),
    {
        self.ktimers.next_reload()
    }

    /// The timer that the last SysTick chose.
    pub fn next_ktimer(&self) -> (r: Option<usize>)
        ensures
            r == self.spec_next_ktimer(),
    {
        self.next_ktimer
    }

    /// Record the timer chosen for the next PendSV.
    pub fn update_next_ktimer(&mut self, id: Option<usize>)
        requires
            old(self).wf(),
            id matches Some(k) ==> k < old(self).ktimers().timers().len(),
        ensures
            final(self).wf(),
            final(self).spec_next_ktimer() == id,
            final(self).threads() == old(self).threads(),
            final(self).queue() == old(self).queue(),
            final(self).spec_priority_sum() == old(self).spec_priority_sum(),
            final(self).ktimers() == old(self).ktimers(),
            final(self).current() == old(self).current(),
            final(self).cfs_timer() == old(self).cfs_timer(),
    {
        self.next_ktimer = id;
    }

    /// Choose the timer that expires first for the next PendSV.
    pub fn update_next_ktimer_to_first(&mut self)
        requires
            old(self).wf(),
        ensures
            final(self).wf(),
            final(self).spec_next_ktimer() == (if old(self).ktimers().entries().len() == 0 {
                None
            } else {
                Some(old(self).ktimers().entries()[0].1)
            }),
            final(self).threads() == old(self).threads(),
            final(self).queue() == old(self).queue(),
            final(self).spec_priority_sum() == old(self).spec_priority_sum(),
            final(self).ktimers() == old(self).ktimers(),
            final(self).current() == old(self).current(),
            final(self).cfs_timer() == old(self).cfs_timer(),
    {
        proof {
            self.ktimers.lemma_wf();
        }
        self.next_ktimer = self.ktimers.first();
    }

    /// Restart the timer of the real-time thread `thread` with its full
    /// period (see `KTimerQueue::reset_rt_ktimer_deadline`).
    pub fn reset_rt_ktimer_deadline(&mut self, thread: usize) -> (r: bool)
        requires
            old(self).wf(),
        ensures
            final(self).wf(),
            r == (first_rt_pos(old(self).ktimers().entries(), old(self).ktimers().timers(), thread)
                < old(self).ktimers().entries().len()),
            !r ==> final(self).ktimers().entries() == old(self).ktimers().entries()
                && final(self).ktimers().timers() == old(self).ktimers().timers(),
            r ==> ({
                let e0 = old(self).ktimers().entries();
                let t0 = old(self).ktimers().timers();
                let p = first_rt_pos(e0, t0, thread);
                let id = e0[p].1;
                &&& final(self).ktimers().entries() == sorted_insert(
                    e0.remove(p),
                    (t0[id as int].spec_duration() as u64, id),
                )
                &&& unchanged_except(t0, final(self).ktimers().timers(), id)
                &&& same_but_deadline(final(self).ktimers().timers()[id as int], t0[id as int])
                &&& final(self).ktimers().timers()[id as int].spec_deadline() == t0[id as int].spec_duration()
            }),
            final(self).threads() == old(self).threads(),
            final(self).queue() == old(self).queue(),
            final(self).spec_priority_sum() == old(self).spec_priority_sum(),
            final(self).current() == old(self).current(),
            final(self).spec_next_ktimer() == old(self).spec_next_ktimer(),
            final(self).cfs_timer() == old(self).cfs_timer(),
    {
        let ghost t0 = self.ktimers.timers();
        let r = self.ktimers.reset_rt_ktimer_deadline(thread);
        proof {
            let t1 = self.ktimers.timers();
            old(self).ktimers.lemma_wf();
            lemma_first_rt_pos(old(self).ktimers.entries(), t0, thread);
            if r {
                let e0 = old(self).ktimers.entries();
                let p = first_rt_pos(e0, t0, thread);
                lemma_threads_kept(t0, t1, e0[p].1);
            } else {
                assert forall|j: int| 0 <= j < t0.len() implies #[trigger] t1[j].spec_thread() == t0[j].spec_thread() by {}
            }
            lemma_timer_threads_frame(t0, t1, self.threads@, self.threads@);
        }
        r
    }

    /// Let the real-time thread `thread` yield after running `elapsed` ticks
    /// (see `KTimerQueue::yield_rt_ktimer`).
    pub fn yield_rt_ktimer(&mut self, thread: usize, elapsed: u32) -> (r: bool)
        requires
            old(self).wf(),
            old(self).ktimers().entries().len() > 0 && is_rt_of(
                old(self).ktimers().timers()[old(self).ktimers().entries()[0].1 as int],
                thread,
            ) ==> elapsed <= old(self).ktimers().timers()[old(self).ktimers().entries()[0].1 as int].spec_duration(),
        ensures
            final(self).wf(),
            r == (old(self).ktimers().entries().len() > 0 && is_rt_of(
                old(self).ktimers().timers()[old(self).ktimers().entries()[0].1 as int],
                thread,
            )),
            !r ==> final(self).ktimers().entries() == old(self).ktimers().entries()
                && final(self).ktimers().timers() == old(self).ktimers().timers(),
            r ==> ({
                let e0 = old(self).ktimers().entries();
                let t0 = old(self).ktimers().timers();
                let id = e0[0].1;
                let d = (t0[id as int].spec_duration() - elapsed) as u32;
                &&& final(self).ktimers().entries() == sorted_insert(
                    advanced(e0.drop_first(), elapsed as u64),
                    (d as u64, id),
                )
                &&& final(self).ktimers().timers().len() == t0.len()
                &&& same_but_deadline(final(self).ktimers().timers()[id as int], t0[id as int])
                &&& final(self).ktimers().timers()[id as int].spec_deadline() == d
                &&& forall|j: int|
                    0 <= j < t0.len() && j != id ==> lowered(
                        t0[j],
                        #[trigger] final(self).ktimers().timers()[j],
                        elapsed,
                    )
            }),
            final(self).threads() == old(self).threads(),
            final(self).queue() == old(self).queue(),
            final(self).spec_priority_sum() == old(self).spec_priority_sum(),
            final(self).current() == old(self).current(),
            final(self).spec_next_ktimer() == old(self).spec_next_ktimer(),
            final(self).cfs_timer() == old(self).cfs_timer(),
    {
        let ghost t0 = self.ktimers.timers();
        let r = self.ktimers.yield_rt_ktimer(thread, elapsed);
        proof {
            let t1 = self.ktimers.timers();
            old(self).ktimers.lemma_wf();
            if r {
                let id = old(self).ktimers.entries()[0].1;
                assert forall|j: int| 0 <= j < t0.len() implies #[trigger] t1[j].spec_thread() == t0[j].spec_thread() by {
                    if j != id {
                        assert(lowered(t0[j], t1[j], elapsed));
                    }
                }
            } else {
                assert forall|j: int| 0 <= j < t0.len() implies #[trigger] t1[j].spec_thread() == t0[j].spec_thread() by {}
            }
            lemma_timer_threads_frame(t0, t1, self.threads@, self.threads@);
        }
        r
    }
}

// ---------------------------------------------------------------------------
// Laws of the scheduler
// ---------------------------------------------------------------------------

/// A thread of higher priority (a smaller priority value) accumulates
/// virtual runtime no faster than one of lower priority, and virtual runtime
/// never decreases as ticks accumulate.
pub proof fn lemma_vruntime_monotone(t1: u32, t2: u32, p1: u32, p2: u32, sum: u32)
    requires
        sum > 0,
        t1 <= t2,
        p1 <= p2,
    ensures
        spec_vruntime(t1, p1, sum) <= spec_vruntime(t2, p2, sum),
{
    let a = t1 as int * p1 as int;
    let b = t2 as int * p2 as int;
    assert(a <= b) by (nonlinear_arith)
        requires
            a == t1 as int * p1 as int,
            b == t2 as int * p2 as int,
            0 <= t1 <= t2,
            0 <= p1 <= p2,
    ;
    assert(a / sum as int <= b / sum as int) by (nonlinear_arith)
        requires
            0 <= a <= b,
            sum > 0,
    ;
    assert(b / sum as int <= b) by (nonlinear_arith)
        requires
            0 <= b,
            sum > 0,
    ;
    assert(b <= u32::MAX as int * u32::MAX as int) by (nonlinear_arith)
        requires
            b == t2 as int * p2 as int,
            0 <= t2 <= u32::MAX,
            0 <= p2 <= u32::MAX,
    ;
}

impl Scheduler {
    /// The running thread is never in the run queue; every queued thread is
    /// a ready CFS thread.
    pub proof fn lemma_running_not_queued(&self)
        requires
            self.wf(),
        ensures
            forall|id: usize|
                id < self.threads().len() && (#[trigger] self.threads()[id as int]).state == ThreadState::Running
                    ==> !has_id(self.queue(), id),
            forall|k: int|
                0 <= k < self.queue().len() ==> (#[trigger] self.queue()[k]).1 < self.threads().len()
                    && self.threads()[self.queue()[k].1 as int].state == ThreadState::Ready
                    && self.threads()[self.queue()[k].1 as int].thread_type == ThreadType::Cfs,
    {
        let q = self.queue();
        let th = self.threads();
        assert forall|k: int| 0 <= k < q.len() implies (#[trigger] q[k]).1 < th.len()
            && th[q[k].1 as int].state == ThreadState::Ready
            && th[q[k].1 as int].thread_type == ThreadType::Cfs by {
            let id = q[k].1;
            assert(has_id(q, id));
            assert(th[id as int].sched_entity.linked <==> has_id(q, id));
        }
    }

    /// The CFS scheduler picks the thread with the smallest virtual runtime:
    /// the head of the run queue has the smallest virtual runtime of all
    /// queued threads.
    pub proof fn lemma_first_has_min_vruntime(&self)
        requires
            self.wf(),
            self.queue().len() > 0,
        ensures
            forall|id: usize|
                id < self.threads().len() && (#[trigger] self.threads()[id as int]).sched_entity.linked
                    ==> self.threads()[self.queue()[0].1 as int].sched_entity.vruntime
                    <= self.threads()[id as int].sched_entity.vruntime,
    {
        self.run_queue.tree.lemma_wf();
        let q = self.queue();
        let th = self.threads();
        assert forall|id: usize|
            id < th.len() && (#[trigger] th[id as int]).sched_entity.linked implies th[q[0].1 as int].sched_entity.vruntime
                <= th[id as int].sched_entity.vruntime by {
            assert(has_id(q, id));
            let k = choose|k: int| 0 <= k < q.len() && q[k].1 == id;
            assert(q[0].0 <= q[k].0);
        }
    }
}

/// A CFS preemption neither loses nor duplicates a thread: when a CFS thread
/// runs and the CFS timer fires, the threads that are queued or running are
/// the same before and after the decision, and the running one is not queued.
pub proof fn lemma_cfs_switch_keeps_threads(
    th: Seq<Thread>,
    q: Seq<Entry>,
    sum: u32,
    c: usize,
    timer: KTimerEntity,
    elapsed: u32,
)
    requires
        sorted(q),
        ids_distinct(q),
        !has_id(q, c),
        c < th.len(),
        th[c as int].state == ThreadState::Running,
        th[c as int].thread_type == ThreadType::Cfs,
        sum > 0,
        timer.spec_timer_type() == KTimerType::Cfs,
    ensures
        ({
            let d = spec_schedule(th, q, sum, Some(c), Some(timer), elapsed);
            &&& d.3 is Some
            &&& !has_id(d.2, d.3->0)
            &&& forall|x: usize| (has_id(d.2, x) || d.3 == Some(x)) <==> (has_id(q, x) || x == c)
        }),
{
    let d = spec_schedule(th, q, sum, Some(c), Some(timer), elapsed);
    if q.len() > 0 {
        let n = q[0].1;
        let th1 = th.update(c as int, charged(th[c as int], elapsed, sum));
        let vr = th1[c as int].sched_entity.vruntime;
        if vr > th[n as int].sched_entity.vruntime {
            let q1 = q.drop_first();
            lemma_remove_keeps_order(q, 0);
            assert(q.remove(0) =~= q1);
            lemma_upper_pos(q1, (vr, c));
            lemma_insert_ids_distinct(q1, upper_pos(q1, (vr, c)), (vr, c));
            assert(has_id(q, n));
            if has_id(d.2, n) {
                assert(has_id(q1, n) || n == c);
            }
        }
    }
}
impl Scheduler {
    /// Traversal visits the running thread, then every queued thread once, in
    /// queue order, and then stops; from a thread that is neither running
    /// nor queued it goes nowhere.
    pub proof fn lemma_traverse_in_order(&self)
        requires
            self.wf(),
        ensures
            spec_traverse(self.queue(), self.current(), None) == (match self.current() {
                Some(c) => Some(c),
                None => if self.queue().len() == 0 {
                    None
                } else {
                    Some(self.queue()[0].1)
                },
            }),
            forall|i: int|
                0 <= i < self.queue().len() && self.current() != Some(#[trigger] self.queue()[i].1)
                    ==> spec_traverse(self.queue(), self.current(), Some(self.queue()[i].1)) == if i + 1
                    < self.queue().len() {
                    Some(self.queue()[i + 1].1)
                } else {
                    None
                },
            self.current() matches Some(c) ==> spec_traverse(self.queue(), self.current(), Some(c)) == if self.queue().len()
                == 0 {
                None
            } else {
                Some(self.queue()[0].1)
            },
            forall|t: usize|
                self.current() != Some(t) && !has_id(self.queue(), t) ==> spec_traverse(
                    self.queue(),
                    self.current(),
                    Some(t),
                ) is None,
    {
        self.run_queue.tree.lemma_wf();
        let q = self.queue();
        assert forall|i: int|
            0 <= i < q.len() && self.current() != Some(#[trigger] q[i].1) implies spec_traverse(
            q,
            self.current(),
            Some(q[i].1),
        ) == if i + 1 < q.len() {
            Some(q[i + 1].1)
        } else {
            None
        } by {
            assert(has_id(q, q[i].1));
            lemma_pos_of(q, i);
        }
    }
}

/// Dequeuing a thread right after enqueuing it gives back the run queue and
/// the priority sum from before.
pub proof fn lemma_dequeue_undoes_enqueue(q: Seq<Entry>, sum: u32, vruntime: u64, id: usize, priority: u32)
    requires
        sorted(q),
        ids_distinct(q),
        !has_id(q, id),
        sum + priority <= u32::MAX,
    ensures
        sorted_insert(q, (vruntime, id)).remove(pos_of(sorted_insert(q, (vruntime, id)), id)) == q,
        ((sum + priority) as u32 - priority) as u32 == sum,
{
    lemma_remove_undoes_insert(q, vruntime, id);
}


/// The state a PendSV starts from in a well-formed scheduler: the run queue
/// is sorted and keyed by the queued threads' virtual runtimes, the thread
/// `c` runs (so it is not queued), and a timer that names a thread names a
/// real-time thread.
pub open spec fn pendsv_state(th: Seq<Thread>, q: Seq<Entry>, c: usize, timer: KTimerEntity) -> bool {
    &&& sorted(q)
    &&& ids_distinct(q)
    &&& rq_keys_match(q, th)
    &&& rq_links_match(q, th)
    &&& c < th.len()
    &&& th[c as int].state == ThreadState::Running
    &&& (timer.spec_thread() matches Some(t) ==> t < th.len() && th[t as int].thread_type == ThreadType::Rt)
}

/// At a PendSV the running CFS thread is charged with the elapsed ticks and,
/// with a nonzero priority sum, its virtual runtime becomes
/// `ticks_consumed * priority / priority_sum`, counting every tick it has
/// consumed so far; its priority stays.
pub proof fn lemma_schedule_charges_cfs_thread(
    th: Seq<Thread>,
    q: Seq<Entry>,
    sum: u32,
    c: usize,
    timer: KTimerEntity,
    elapsed: u32,
)
    requires
        pendsv_state(th, q, c, timer),
        th[c as int].thread_type == ThreadType::Cfs,
        th[c as int].sched_entity.sched_tick_cnt + elapsed <= u32::MAX,
    ensures
        ({
            let d = spec_schedule(th, q, sum, Some(c), Some(timer), elapsed);
            let ticks = th[c as int].sched_entity.sched_tick_cnt + elapsed;
            &&& d.1.len() == th.len()
            &&& d.1[c as int].sched_entity.sched_tick_cnt == ticks
            &&& d.1[c as int].sched_entity.priority == th[c as int].sched_entity.priority
            &&& sum > 0 ==> d.1[c as int].sched_entity.vruntime as int == ticks * th[c as int].sched_entity.priority
                / (sum as int)
            &&& sum == 0 ==> d.1[c as int].sched_entity.vruntime == th[c as int].sched_entity.vruntime
        }),
{
    let ticks = (th[c as int].sched_entity.sched_tick_cnt + elapsed) as u32;
    let p = th[c as int].sched_entity.priority;
    assert(!has_id(q, c)) by {
        assert(th[c as int].sched_entity.linked <==> has_id(q, c));
    }
    if q.len() > 0 {
        assert(q[0].1 < th.len());
        assert(has_id(q, q[0].1));
        assert(q[0].1 != c);
    }
    if sum > 0 {
        let prod = ticks as int * p as int;
        assert(0 <= prod <= u32::MAX as int * u32::MAX as int) by (nonlinear_arith)
            requires
                prod == ticks as int * p as int,
                0 <= ticks <= u32::MAX,
                0 <= p <= u32::MAX,
        ;
        assert(0 <= prod / (sum as int) <= prod) by (nonlinear_arith)
            requires
                0 <= prod,
                sum > 0,
        ;
    }
}

/// The CFS timer fires with threads queued: the head of the run queue, the
/// queued thread with the smallest virtual runtime, is the one considered.
/// A running real-time thread always hands over to it; a running CFS thread
/// is preempted by it exactly when the CFS thread's new virtual runtime is
/// larger, and then goes back into the queue at its place. Either way the
/// SysTick is programmed next.
pub proof fn lemma_schedule_cfs_timer(
    th: Seq<Thread>,
    q: Seq<Entry>,
    sum: u32,
    c: usize,
    timer: KTimerEntity,
    elapsed: u32,
)
    requires
        pendsv_state(th, q, c, timer),
        timer.spec_timer_type() == KTimerType::Cfs,
        q.len() > 0,
        th[c as int].thread_type == ThreadType::Cfs ==> sum > 0,
    ensures
        forall|k: int| 0 <= k < q.len() ==> q[0].0 <= (#[trigger] q[k]).0,
        ({
            let d = spec_schedule(th, q, sum, Some(c), Some(timer), elapsed);
            let n = q[0].1;
            let vr = d.1[c as int].sched_entity.vruntime;
            &&& d.0
            &&& th[c as int].thread_type == ThreadType::Rt ==> {
                &&& d.3 == Some(n)
                &&& d.2 == q.drop_first()
                &&& d.1[n as int].state == ThreadState::Running
                &&& !d.1[n as int].sched_entity.linked
                &&& d.1[c as int].state == ThreadState::Ready
            }
            &&& th[c as int].thread_type == ThreadType::Cfs && vr > q[0].0 ==> {
                &&& d.3 == Some(n)
                &&& d.2 == sorted_insert(q.drop_first(), (vr, c))
                &&& d.1[n as int].state == ThreadState::Running
                &&& !d.1[n as int].sched_entity.linked
                &&& d.1[c as int].state == ThreadState::Ready
                &&& d.1[c as int].sched_entity.linked
            }
            &&& th[c as int].thread_type == ThreadType::Cfs && vr <= q[0].0 ==> {
                &&& d.3 == Some(c)
                &&& d.2 == q
                &&& d.1[c as int].state == ThreadState::Running
            }
        }),
{
    let n = q[0].1;
    assert(n < th.len());
    assert(has_id(q, n));
    assert(th[n as int].sched_entity.linked);
    assert(!has_id(q, c)) by {
        assert(th[c as int].sched_entity.linked <==> has_id(q, c));
    }
    assert(n != c);
    assert(q[0].0 == th[n as int].sched_entity.vruntime);
    assert forall|k: int| 0 <= k < q.len() implies q[0].0 <= (#[trigger] q[k]).0 by {
        if k > 0 {
            assert(entry_lt(q[0], q[k]));
        }
    }
}

/// A real-time timer that names a thread fires: that thread runs next and
/// the running thread becomes ready. A running CFS thread goes back into the
/// run queue at its place under its new virtual runtime; a running real-time
/// thread is not queued. The SysTick is programmed next.
pub proof fn lemma_schedule_rt_timer(
    th: Seq<Thread>,
    q: Seq<Entry>,
    sum: u32,
    c: usize,
    timer: KTimerEntity,
    elapsed: u32,
)
    requires
        pendsv_state(th, q, c, timer),
        timer.spec_timer_type() == KTimerType::Rt,
        timer.spec_thread() is Some,
        timer.spec_thread()->0 != c,
        th[c as int].thread_type == ThreadType::Cfs ==> sum > 0,
    ensures
        ({
            let d = spec_schedule(th, q, sum, Some(c), Some(timer), elapsed);
            let t = timer.spec_thread()->0;
            &&& d.0
            &&& d.3 == Some(t)
            &&& d.1[t as int].state == ThreadState::Running
            &&& d.1[c as int].state == ThreadState::Ready
            &&& th[c as int].thread_type == ThreadType::Cfs ==> d.2 == sorted_insert(
                q,
                (d.1[c as int].sched_entity.vruntime, c),
            ) && d.1[c as int].sched_entity.linked
            &&& th[c as int].thread_type == ThreadType::Rt ==> d.2 == q
        }),
{
}

/// Whether a PendSV programs the SysTick: it does, unless it charges a
/// running CFS thread with a zero priority sum, or a real-time timer that
/// names no thread fires while a thread runs. Without a chosen timer, a
/// running thread, or when the recorded thread is not running, nothing
/// changes.
pub proof fn lemma_schedule_programs_systick(
    th: Seq<Thread>,
    q: Seq<Entry>,
    sum: u32,
    current: Option<usize>,
    timer: Option<KTimerEntity>,
    elapsed: u32,
)
    ensures
        ({
            let d = spec_schedule(th, q, sum, current, timer, elapsed);
            let active = timer is Some && current is Some && th[current->0 as int].state == ThreadState::Running;
            &&& !active ==> d == (true, th, q, current)
            &&& active ==> (d.0 <==> !(th[current->0 as int].thread_type == ThreadType::Cfs && sum == 0)
                && !(timer->0.spec_timer_type() == KTimerType::Rt && timer->0.spec_thread() is None))
        }),
{
}

/// Programming the SysTick: on an empty queue nothing changes and there is
/// no reload value. Otherwise the reload value is the period of the timer
/// that expires first; that timer's deadline becomes its period and every
/// other timer is left as it was; the queue keeps its length, stays sorted,
/// holds the restarted timer under its period and still holds every other
/// entry.
pub proof fn lemma_programmed(e0: Seq<Entry>, t0: Seq<KTimerEntity>, r: Option<u32>, e1: Seq<Entry>, t1: Seq<KTimerEntity>)
    requires
        programmed(e0, t0, r, e1, t1),
        sorted(e0),
        ids_distinct(e0),
        forall|k: int| 0 <= k < e0.len() ==> (#[trigger] e0[k]).1 < t0.len(),
    ensures
        e0.len() == 0 ==> r is None && e1 == e0 && t1 == t0,
        e0.len() > 0 ==> ({
            let id = e0[0].1;
            let dur = t0[id as int].spec_duration();
            &&& r == Some(dur)
            &&& t1.len() == t0.len()
            &&& t1[id as int].spec_deadline() == dur
            &&& t1[id as int].spec_duration() == dur
            &&& t1[id as int].spec_timer_type() == t0[id as int].spec_timer_type()
            &&& t1[id as int].spec_thread() == t0[id as int].spec_thread()
            &&& forall|j: int| 0 <= j < t0.len() && j != id ==> #[trigger] t1[j] == t0[j]
            &&& e1.len() == e0.len()
            &&& sorted(e1)
            &&& e1.contains((dur as u64, id))
            &&& forall|k: int| 1 <= k < e0.len() ==> e1.contains(#[trigger] e0[k])
        }),
{
    if e0.len() > 0 {
        let id = e0[0].1;
        let dur = t0[id as int].spec_duration();
        let rest = e0.drop_first();
        assert(sorted(rest));
        if rest.contains((dur as u64, id)) {
            let k = choose|k: int| 0 <= k < rest.len() && rest[k] == (dur as u64, id);
            assert(e0[k + 1].1 == e0[0].1);
        }
        lemma_sorted_insert_sorted(rest, (dur as u64, id));
        lemma_sorted_insert_contains(rest, (dur as u64, id));
        assert forall|k: int| 1 <= k < e0.len() implies e1.contains(#[trigger] e0[k]) by {
            assert(rest[k - 1] == e0[k]);
            assert(rest.contains(e0[k]));
        }
    }
}


/// A PendSV that switches nothing: with a zero priority sum while a CFS
/// thread runs, a real-time timer that names no thread, or the CFS timer
/// with an empty run queue, the running thread keeps running, the run queue
/// is unchanged, and no other thread changes.
pub proof fn lemma_schedule_no_switch(
    th: Seq<Thread>,
    q: Seq<Entry>,
    sum: u32,
    c: usize,
    timer: KTimerEntity,
    elapsed: u32,
)
    requires
        pendsv_state(th, q, c, timer),
        (th[c as int].thread_type == ThreadType::Cfs && sum == 0) || (timer.spec_timer_type() == KTimerType::Rt
            && timer.spec_thread() is None) || (timer.spec_timer_type() == KTimerType::Cfs && q.len() == 0),
    ensures
        ({
            let d = spec_schedule(th, q, sum, Some(c), Some(timer), elapsed);
            &&& d.3 == Some(c)
            &&& d.2 == q
            &&& d.1.len() == th.len()
            &&& d.1[c as int].state == ThreadState::Running
            &&& d.1[c as int].thread_type == th[c as int].thread_type
            &&& forall|j: int| 0 <= j < th.len() && j != c ==> #[trigger] d.1[j] == th[j]
        }),
{
}

} // verus!
