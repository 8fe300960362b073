//! Kernel timer queue keyed by timer deadline.
//!
//! The queue owns its timer entities. Each entity is named by the id that
//! `KTimerQueue::add` hands out; the red-black tree orders the linked
//! entities by deadline, and entities with equal deadlines by id, so the id
//! breaks ties as an entity's address would.
use vstd::prelude::*;

use crate::rbtree::{
    advanced, lemma_advanced, has_id, ids_distinct, lower_keys, pos_of, sat_sub, sorted, sorted_insert, upper_pos, Entry,
    RBTree, Link, tree_first_removed, tree_inserted, tree_removed, lemma_pos_of, lemma_remove_keeps_order,
    lemma_upper_pos, lemma_insert_ids_distinct,
};

verus! {

/// The largest value the 24-bit SysTick reload register holds.
pub const SYSTICK_RELOAD_MAX: u32 = 0x00FF_FFFF;

/// Which scheduler a timer serves.
#[derive(Clone, Copy, PartialEq, Eq, Debug)]
pub enum KTimerType {
    Cfs,
    Rt,
}

/// A kernel timer: its period, the ticks left until it expires, what it
/// serves and, for a real-time timer, the id of its thread.
#[derive(Clone, Copy, Debug)]
pub struct KTimerEntity {
    duration: u32,
    deadline: u32,
    timer_type: KTimerType,
    thread: Option<usize>,
    linked: bool,
}

impl KTimerEntity {
    /// The timer's period.
    pub closed spec fn spec_duration(&self) -> u32 {
        self.duration
    }

    /// The ticks left until the timer expires.
    pub closed spec fn spec_deadline(&self) -> u32 {
        self.deadline
    }

    /// What the timer serves.
    pub closed spec fn spec_timer_type(&self) -> KTimerType {
        self.timer_type
    }

    /// The thread the timer belongs to.
    pub closed spec fn spec_thread(&self) -> Option<usize> {
        self.thread
    }

    /// The timer is held in a queue's tree.
    pub closed spec fn spec_linked(&self) -> bool {
        self.linked
    }

    /// A detached timer.
    pub fn new(duration: u32, deadline: u32, timer_type: KTimerType, thread: Option<usize>) -> (e: Self)
        ensures
            e.spec_duration() == duration,
            e.spec_deadline() == deadline,
            e.spec_timer_type() == timer_type,
            e.spec_thread() == thread,
            !e.spec_linked(),
    {
        KTimerEntity { duration, deadline, timer_type, thread, linked: false }
    }

    /// The timer's period.
    pub fn duration(&self) -> (r: u32)
        ensures
            r == self.spec_duration(),
    {
        self.duration
    }

    /// The ticks left until the timer expires.
    pub fn deadline(&self) -> (r: u32)
        ensures
            r == self.spec_deadline(),
    {
        self.deadline
    }

    /// Set the ticks left until the timer expires.
    pub fn set_deadline(&mut self, deadline: u32)
        ensures
            final(self).spec_duration() == old(self).spec_duration(),
            final(self).spec_deadline() == deadline,
            final(self).spec_timer_type() == old(self).spec_timer_type(),
            final(self).spec_thread() == old(self).spec_thread(),
            final(self).spec_linked() == old(self).spec_linked(),
    {
        self.deadline = deadline;
    }

    /// What the timer serves.
    pub fn timer_type(&self) -> (r: KTimerType)
        ensures
            r == self.spec_timer_type(),
    {
        self.timer_type
    }

    /// Set what the timer serves.
    pub fn set_timer_type(&mut self, timer_type: KTimerType)
        ensures
            final(self).spec_duration() == old(self).spec_duration(),
            final(self).spec_deadline() == old(self).spec_deadline(),
            final(self).spec_timer_type() == timer_type,
            final(self).spec_thread() == old(self).spec_thread(),
            final(self).spec_linked() == old(self).spec_linked(),
    {
        self.timer_type = timer_type;
    }

    /// The thread the timer belongs to.
    pub fn thread(&self) -> (r: Option<usize>)
        ensures
            r == self.spec_thread(),
    {
        self.thread
    }

    /// Attach the timer to a thread.
    pub fn init_thread(&mut self, thread: Option<usize>)
        ensures
            final(self).spec_duration() == old(self).spec_duration(),
            final(self).spec_deadline() == old(self).spec_deadline(),
            final(self).spec_timer_type() == old(self).spec_timer_type(),
            final(self).spec_thread() == thread,
            final(self).spec_linked() == old(self).spec_linked(),
    {
        self.thread = thread;
    }

    /// Attach the timer to a thread.
    pub fn set_thread(&mut self, thread: Option<usize>)
        ensures
            final(self).spec_duration() == old(self).spec_duration(),
            final(self).spec_deadline() == old(self).spec_deadline(),
            final(self).spec_timer_type() == old(self).spec_timer_type(),
            final(self).spec_thread() == thread,
            final(self).spec_linked() == old(self).spec_linked(),
    {
        self.init_thread(thread);
    }

    /// Mark the timer as detached from any queue.
    pub fn reset_links(&mut self)
        ensures
            final(self).spec_duration() == old(self).spec_duration(),
            final(self).spec_deadline() == old(self).spec_deadline(),
            final(self).spec_timer_type() == old(self).spec_timer_type(),
            final(self).spec_thread() == old(self).spec_thread(),
            final(self).spec_linked() == false,
    {
        self.linked = false;
    }

    /// The timer is held in a queue's tree. This tells membership: a timer
    /// that is alone in its queue counts as linked too. The queue owns its
    /// timers and names them by id, so there are no parent or child links on
    /// the entity to read; membership is the question such a test answers.
    /// (`RbNode::is_linked` reports child links on a node.)
    pub fn is_linked(&self) -> (r: bool)
        ensures
            r == self.spec_linked(),
    {
        self.linked
    }
}

/// The SysTick reload value for an interval of `ticks`: the register counts
/// from the reload value down to zero, so it holds `ticks - 1`, and it is 24
/// bits wide.
pub open spec fn spec_reload_from_ticks(ticks: u32) -> Option<u32> {
    if 1 <= ticks && ticks - 1 <= SYSTICK_RELOAD_MAX {
        Some((ticks - 1) as u32)
    } else {
        None
    }
}

/// Convert a raw tick interval into a SysTick reload register value.
///
/// SysTick reload stores `ticks - 1`, and the register is 24 bits wide.
pub fn reload_from_ticks(ticks: u32) -> (r: Option<u32>)
    ensures
        r == spec_reload_from_ticks(ticks),
{
    match ticks.checked_sub(1) {
        Some(reload) => {
            if reload <= SYSTICK_RELOAD_MAX {
                Some(reload)
            } else {
                None
            }
        },
        None => None,
    }
}


/// Ticks elapsed since the last SysTick interrupt, given the value of the
/// SysTick reload register: the counter runs from the reload value down to
/// zero, so one period is `reload + 1` ticks (saturating at `u32::MAX`).
pub fn elapsed_ticks_since_last_interrupt(reload: u32) -> (r: u32)
    ensures
        r == (if reload < u32::MAX {
            (reload + 1) as u32
        } else {
            u32::MAX
        }),
{
    reload.saturating_add(1)
}

/// Ticks elapsed in the current SysTick period, given the reload register
/// and the current counter value (saturating at zero).
pub fn elapsed_ticks_since_current_reload(reload: u32, current: u32) -> (r: u32)
    ensures
        r == (if reload >= current {
            (reload - current) as u32
        } else {
            0
        }),
{
    reload.saturating_sub(current)
}

/// Two timers agree on everything but their deadline.
pub open spec fn same_but_deadline(a: KTimerEntity, b: KTimerEntity) -> bool {
    &&& a.spec_duration() == b.spec_duration()
    &&& a.spec_timer_type() == b.spec_timer_type()
    &&& a.spec_thread() == b.spec_thread()
    &&& a.spec_linked() == b.spec_linked()
}

/// Two timers agree on everything but whether they are linked.
pub open spec fn same_but_linked(a: KTimerEntity, b: KTimerEntity) -> bool {
    &&& a.spec_duration() == b.spec_duration()
    &&& a.spec_deadline() == b.spec_deadline()
    &&& a.spec_timer_type() == b.spec_timer_type()
    &&& a.spec_thread() == b.spec_thread()
}

/// Every entry of the queue names a timer, under that timer's deadline.
pub open spec fn keys_match(s: Seq<Entry>, timers: Seq<KTimerEntity>) -> bool {
    forall|k: int|
        0 <= k < s.len() ==> (#[trigger] s[k]).1 < timers.len() && s[k].0 == timers[s[k].1 as int].spec_deadline()
}

/// A timer is linked exactly when the queue holds an entry for it.
pub open spec fn links_match(s: Seq<Entry>, timers: Seq<KTimerEntity>) -> bool {
    forall|id: usize| id < timers.len() ==> (#[trigger] timers[id as int].spec_linked() <==> has_id(s, id))
}

proof fn lemma_keys_match_frame(s: Seq<Entry>, t: Seq<KTimerEntity>, t2: Seq<KTimerEntity>)
    requires
        keys_match(s, t),
        t2.len() == t.len(),
        forall|j: int| 0 <= j < t.len() ==> #[trigger] t2[j].spec_deadline() == t[j].spec_deadline(),
    ensures
        keys_match(s, t2),
{
    assert forall|k: int| 0 <= k < s.len() implies (#[trigger] s[k]).1 < t2.len() && s[k].0
        == t2[s[k].1 as int].spec_deadline() by {
        assert(t2[s[k].1 as int].spec_deadline() == t[s[k].1 as int].spec_deadline());
    }
}

proof fn lemma_keys_match_insert(s: Seq<Entry>, t: Seq<KTimerEntity>, p: int, e: Entry)
    requires
        keys_match(s, t),
        0 <= p <= s.len(),
        e.1 < t.len(),
        e.0 == t[e.1 as int].spec_deadline(),
    ensures
        keys_match(s.insert(p, e), t),
{
    let r = s.insert(p, e);
    assert forall|k: int| 0 <= k < r.len() implies (#[trigger] r[k]).1 < t.len() && r[k].0
        == t[r[k].1 as int].spec_deadline() by {
        if k < p {
            assert(r[k] == s[k]);
        } else if k > p {
            assert(r[k] == s[k - 1]);
        }
    }
}

proof fn lemma_keys_match_remove(s: Seq<Entry>, t: Seq<KTimerEntity>, i: int)
    requires
        keys_match(s, t),
        0 <= i < s.len(),
    ensures
        keys_match(s.remove(i), t),
{
    let r = s.remove(i);
    assert forall|k: int| 0 <= k < r.len() implies (#[trigger] r[k]).1 < t.len() && r[k].0
        == t[r[k].1 as int].spec_deadline() by {
        if k < i {
            assert(r[k] == s[k]);
        } else {
            assert(r[k] == s[k + 1]);
        }
    }
}

/// Every timer but the one with id `id` is the same in both sequences.
pub open spec fn unchanged_except(t0: Seq<KTimerEntity>, t1: Seq<KTimerEntity>, id: usize) -> bool {
    &&& t1.len() == t0.len()
    &&& forall|j: int| 0 <= j < t0.len() && j != id ==> #[trigger] t1[j] == t0[j]
}

/// A timer serves the real-time thread `thread`.
pub open spec fn is_rt_of(e: KTimerEntity, thread: usize) -> bool {
    e.spec_timer_type() == KTimerType::Rt && e.spec_thread() == Some(thread)
}

/// The position of the first entry in queue order whose timer serves the
/// real-time thread `thread`; the length of the queue when there is none.
pub open spec fn first_rt_pos(s: Seq<Entry>, t: Seq<KTimerEntity>, thread: usize) -> int
    decreases s.len(),
{
    if s.len() == 0 {
        0
    } else if is_rt_of(t[s[0].1 as int], thread) {
        0
    } else {
        1 + first_rt_pos(s.drop_first(), t, thread)
    }
}

/// `first_rt_pos` names the first matching entry and only matching entries
/// come before it.
pub proof fn lemma_first_rt_pos(s: Seq<Entry>, t: Seq<KTimerEntity>, thread: usize)
    ensures
        0 <= first_rt_pos(s, t, thread) <= s.len(),
        forall|j: int| 0 <= j < first_rt_pos(s, t, thread) ==> !is_rt_of(t[(#[trigger] s[j]).1 as int], thread),
        first_rt_pos(s, t, thread) < s.len() ==> is_rt_of(t[s[first_rt_pos(s, t, thread)].1 as int], thread),
    decreases s.len(),
{
    if s.len() > 0 && !is_rt_of(t[s[0].1 as int], thread) {
        lemma_first_rt_pos(s.drop_first(), t, thread);
        assert forall|j: int| 0 <= j < first_rt_pos(s, t, thread) implies !is_rt_of(t[(#[trigger] s[j]).1 as int], thread) by {
            if j > 0 {
                assert(s[j] == s.drop_first()[j - 1]);
            }
        }
    }
}

/// Whether the deadline of a timer after lowering by `d` is as `advance`
/// leaves it: lowered, saturating at zero, if the timer is linked.
pub open spec fn lowered(a: KTimerEntity, b: KTimerEntity, d: u32) -> bool {
    &&& same_but_deadline(a, b)
    &&& b.spec_deadline() == (if a.spec_linked() {
        sat_sub(a.spec_deadline() as u64, d as u64) as u32
    } else {
        a.spec_deadline()
    })
}

/// Timer queue ordered by deadline.
pub struct KTimerQueue {
    tree: RBTree,
    timers: Vec<KTimerEntity>,
}

impl KTimerQueue {
    /// The linked timers as `(deadline, id)` entries, in queue order.
    pub closed spec fn entries(&self) -> Seq<Entry> {
        self.tree@
    }

    /// All timers of the queue, linked or not, indexed by id.
    pub closed spec fn timers(&self) -> Seq<KTimerEntity> {
        self.timers@
    }

    /// The nodes of the queue's tree, from the root down.
    pub closed spec fn shape(&self) -> Link {
        self.tree.shape()
    }

    /// The id of the timer held by the root node of the tree, if any.
    pub open spec fn root_id(&self) -> Option<usize> {
        match self.shape() {
            None => None,
            Some(n) => Some(n.id),
        }
    }

    /// The queue is ordered, holds each linked timer once under its deadline,
    /// and holds nothing else.
    pub closed spec fn wf(&self) -> bool {
        &&& self.tree.wf()
        &&& keys_match(self.tree@, self.timers@)
        &&& links_match(self.tree@, self.timers@)
    }

    /// An empty queue with no timers.
    pub fn new() -> (q: Self)
        ensures
            q.wf(),
            q.entries() == Seq::<Entry>::empty(),
            q.timers() == Seq::<KTimerEntity>::empty(),
            q.shape() is None,
    {
        KTimerQueue { tree: RBTree::new(), timers: Vec::new() }
    }

    /// The order of a well-formed queue: sorted, with distinct ids.
    pub proof fn lemma_wf(&self)
        requires
            self.wf(),
        ensures
            sorted(self.entries()),
            ids_distinct(self.entries()),
            keys_match(self.entries(), self.timers()),
            links_match(self.entries(), self.timers()),
            self.timers().len() <= usize::MAX,
    {
        self.tree.lemma_wf();
        assert(self.timers.len() == self.timers@.len());
    }

    /// Earliest deadline first: the timer at the head of the queue has the
    /// smallest deadline of all linked timers.
    pub proof fn lemma_first_is_earliest(&self)
        requires
            self.wf(),
            self.entries().len() > 0,
        ensures
            forall|id: usize|
                id < self.timers().len() && (#[trigger] self.timers()[id as int]).spec_linked() ==> self.timers()[self.entries()[0].1 as int].spec_deadline()
                    <= self.timers()[id as int].spec_deadline(),
    {
        self.tree.lemma_wf();
        let s = self.entries();
        let t = self.timers();
        assert forall|id: usize|
            id < t.len() && (#[trigger] t[id as int]).spec_linked() implies t[s[0].1 as int].spec_deadline()
                <= t[id as int].spec_deadline() by {
            assert(has_id(s, id));
            let k = choose|k: int| 0 <= k < s.len() && s[k].1 == id;
            assert(s[0].0 <= s[k].0);
        }
    }

    /// Hand a detached timer to the queue; returns its id.
    pub fn add(&mut self, entity: KTimerEntity) -> (id: usize)
        requires
            old(self).wf(),
            old(self).timers().len() < usize::MAX,
        ensures
            final(self).wf(),
            id == old(self).timers().len(),
            final(self).entries() == old(self).entries(),
            final(self).timers().len() == old(self).timers().len() + 1,
            forall|j: int| 0 <= j < id ==> #[trigger] final(self).timers()[j] == old(self).timers()[j],
            same_but_linked(final(self).timers()[id as int], entity),
            !final(self).timers()[id as int].spec_linked(),
    {
        let mut e = entity;
        e.linked = false;
        let id = self.timers.len();
        proof {
            assert forall|j: int| 0 <= j < self.tree@.len() implies (#[trigger] self.tree@[j]).1
                != id by {}
        }
        self.timers.push(e);
        proof {
            let t0 = old(self).timers@;
            let t = self.timers@;
            lemma_keys_match_frame(self.tree@, t0, t0);
            assert forall|k: int| 0 <= k < self.tree@.len() implies (#[trigger] self.tree@[k]).1
                < t.len() && self.tree@[k].0 == t[self.tree@[k].1 as int].spec_deadline() by {
                assert(t[self.tree@[k].1 as int] == t0[self.tree@[k].1 as int]);
            }
            assert forall|x: usize| x < t.len() implies (#[trigger] t[x as int].spec_linked()
                <==> has_id(self.tree@, x)) by {
                if x == id {
                    if has_id(self.tree@, x) {
                        let k = choose|k: int| 0 <= k < self.tree@.len() && self.tree@[k].1 == x;
                        assert(self.tree@[k].1 < t0.len());
                    }
                } else {
                    assert(t[x as int] == t0[x as int]);
                }
            }
        }
        id
    }

    /// The timer with the given id.
    pub fn entity(&self, id: usize) -> (r: &KTimerEntity)
        requires
            id < self.timers().len(),
        ensures
            *r == self.timers()[id as int],
    {
        &self.timers[id]
    }

    /// The number of timers handed to the queue, linked or not.
    pub fn timer_count(&self) -> (r: usize)
        ensures
            r == self.timers().len(),
    {
        self.timers.len()
    }

    /// No timer is linked.
    pub fn is_empty(&self) -> (r: bool)
        requires
            self.wf(),
        ensures
            r == (self.entries().len() == 0),
    {
        self.tree.is_empty()
    }

    /// The number of linked timers.
    pub fn len(&self) -> (r: usize)
        requires
            self.wf(),
        ensures
            r == self.entries().len(),
    {
        self.tree.len()
    }

    /// The timer at the root of the tree; which one that is depends on the
    /// tree's shape.
    pub fn root(&self) -> (r: Option<usize>)
        requires
            self.wf(),
        ensures
            r == self.root_id(),
            r is None <==> self.entries().len() == 0,
            r is Some ==> has_id(self.entries(), r->0),
    {
        match self.tree.root() {
            None => None,
            Some(e) => {
                proof {
                    let k = choose|k: int| 0 <= k < self.tree@.len() && self.tree@[k] == e;
                    assert(self.tree@[k].1 == e.1);
                }
                Some(e.1)
            },
        }
    }

    /// The timer that expires first.
    pub fn first(&self) -> (r: Option<usize>)
        requires
            self.wf(),
        ensures
            r == (if self.entries().len() == 0 {
                None
            } else {
                Some(self.entries()[0].1)
            }),
    {
        match self.tree.first() {
            None => None,
            Some(e) => Some(e.1),
        }
    }

    /// The timer that expires last.
    pub fn last(&self) -> (r: Option<usize>)
        requires
            self.wf(),
        ensures
            r == (if self.entries().len() == 0 {
                None
            } else {
                Some(self.entries().last().1)
            }),
    {
        match self.tree.last() {
            None => None,
            Some(e) => Some(e.1),
        }
    }

    /// The timer that follows `id` in the queue; `None` when `id` is the last
    /// one or is not linked.
    pub fn next(&self, id: usize) -> (r: Option<usize>)
        requires
            self.wf(),
        ensures
            !has_id(self.entries(), id) ==> r is None,
            has_id(self.entries(), id) ==> r == (if pos_of(self.entries(), id) + 1
                < self.entries().len() {
                Some(self.entries()[pos_of(self.entries(), id) + 1].1)
            } else {
                None
            }),
    {
        if id >= self.timers.len() || !self.timers[id].linked {
            proof {
                if id < self.timers@.len() {
                    assert(!self.timers@[id as int].spec_linked());
                }
                if has_id(self.tree@, id) {
                    let k = choose|k: int| 0 <= k < self.tree@.len() && self.tree@[k].1 == id;
                    assert(self.tree@[k].1 < self.timers@.len());
                }
            }
            return None;
        }
        let key = self.timers[id].deadline as u64;
        proof {
            assert(self.timers@[id as int].spec_linked());
            let k = choose|k: int| 0 <= k < self.tree@.len() && self.tree@[k].1 == id;
            assert(self.tree@[k] == (key, id));
            self.tree.lemma_wf();
            lemma_pos_of(self.tree@, k);
        }
        match self.tree.next(key, id) {
            None => None,
            Some(e) => Some(e.1),
        }
    }

    /// The deadline of the timer that expires first.
    pub fn next_deadline(&self) -> (r: Option<u32>)
        requires
            self.wf(),
        ensures
            r == (if self.entries().len() == 0 {
                None
            } else {
                Some(self.entries()[0].0 as u32)
            }),
    {
        match self.tree.first() {
            None => None,
            Some(e) => {
                let d = self.timers[e.1].deadline;
                assert(self.tree@[0] == e);
                Some(d)
            },
        }
    }

    /// Link a detached timer into the queue at its place: after every linked
    /// timer with an earlier deadline, or the same deadline and a smaller id.
    pub fn insert(&mut self, id: usize)
        requires
            old(self).wf(),
            id < old(self).timers().len(),
            !old(self).timers()[id as int].spec_linked(),
            old(self).entries().len() < usize::MAX,
        ensures
            final(self).wf(),
            final(self).entries() == sorted_insert(
                old(self).entries(),
                (old(self).timers()[id as int].spec_deadline() as u64, id),
            ),
            final(self).shape() == tree_inserted(
                old(self).shape(),
                old(self).timers()[id as int].spec_deadline() as u64,
                id,
            ),
            unchanged_except(old(self).timers(), final(self).timers(), id),
            same_but_linked(final(self).timers()[id as int], old(self).timers()[id as int]),
            final(self).timers()[id as int].spec_linked(),
    {
        let ghost s0 = self.tree@;
        let ghost t0 = self.timers@;
        let mut e = self.timers[id];
        proof {
            assert(!t0[id as int].spec_linked());
            self.tree.lemma_wf();
            lemma_upper_pos(s0, (e.deadline as u64, id));
            lemma_insert_ids_distinct(s0, upper_pos(s0, (e.deadline as u64, id)), (e.deadline as u64, id));
            lemma_keys_match_insert(s0, t0, upper_pos(s0, (e.deadline as u64, id)), (e.deadline as u64, id));
        }
        self.tree.insert(e.deadline as u64, id);
        e.linked = true;
        self.timers[id] = e;
        proof {
            let t1 = self.timers@;
            lemma_keys_match_frame(self.tree@, t0, t1);
            assert forall|x: usize| x < t1.len() implies (#[trigger] t1[x as int].spec_linked()
                <==> has_id(self.tree@, x)) by {
                if x != id {
                    assert(t1[x as int] == t0[x as int]);
                    assert(t0[x as int].spec_linked() <==> has_id(s0, x));
                }
            }
        }
    }

    /// Detach a timer that is not linked any more from the tree's view.
    fn mark_detached(&mut self, id: usize)
        requires
            id < old(self).timers@.len(),
        ensures
            final(self).tree == old(self).tree,
            final(self).timers@ == old(self).timers@.update(
                id as int,
                KTimerEntity { linked: false, ..old(self).timers@[id as int] },
            ),
    {
        let mut e = self.timers[id];
        e.linked = false;
        self.timers[id] = e;
    }

    /// Empty the queue: every timer is unlinked and keeps everything else,
    /// its id included.
    pub fn clear(&mut self)
        requires
            old(self).wf(),
        ensures
            final(self).wf(),
            final(self).entries() == Seq::<Entry>::empty(),
            final(self).shape() is None,
            final(self).timers().len() == old(self).timers().len(),
            forall|j: int|
                0 <= j < old(self).timers().len() ==> same_but_linked(
                    #[trigger] final(self).timers()[j],
                    old(self).timers()[j],
                ) && !final(self).timers()[j].spec_linked(),
    {
        let ghost t0 = self.timers@;
        self.tree = RBTree::new();
        let mut i: usize = 0;
        while i < self.timers.len()
            invariant
                self.tree.wf(),
                self.tree@ == Seq::<Entry>::empty(),
                self.tree.shape() is None,
                0 <= i <= self.timers@.len(),
                self.timers@.len() == t0.len(),
                forall|j: int|
                    0 <= j < i ==> same_but_linked(#[trigger] self.timers@[j], t0[j])
                        && !self.timers@[j].spec_linked(),
                forall|j: int| i <= j < t0.len() ==> #[trigger] self.timers@[j] == t0[j],
            decreases t0.len() - i,
        {
            self.mark_detached(i);
            i = i + 1;
        }
    }

    /// Unlink a timer; returns its id when it was linked.
    pub fn remove(&mut self, id: usize) -> (r: Option<usize>)
        requires
            old(self).wf(),
        ensures
            final(self).wf(),
            r == (if has_id(old(self).entries(), id) {
                Some(id)
            } else {
                None
            }),
            r is Some ==> final(self).entries() == old(self).entries().remove(
                pos_of(old(self).entries(), id),
            ),
            r is Some ==> final(self).shape() == tree_removed(
                old(self).shape(),
                old(self).timers()[id as int].spec_deadline() as u64,
                id,
            ),
            r is Some ==> unchanged_except(old(self).timers(), final(self).timers(), id)
                && same_but_linked(final(self).timers()[id as int], old(self).timers()[id as int])
                && !final(self).timers()[id as int].spec_linked(),
            r is None ==> *final(self) == *old(self),
    {
        if id >= self.timers.len() || !self.timers[id].linked {
            proof {
                if id < self.timers@.len() {
                    assert(!self.timers@[id as int].spec_linked());
                }
                if has_id(self.tree@, id) {
                    let k = choose|k: int| 0 <= k < self.tree@.len() && self.tree@[k].1 == id;
                    assert(self.tree@[k].1 < self.timers@.len());
                }
            }
            return None;
        }
        let ghost s0 = self.tree@;
        let ghost t0 = self.timers@;
        let key = self.timers[id].deadline as u64;
        let ghost k = choose|k: int| 0 <= k < s0.len() && s0[k].1 == id;
        proof {
            assert(t0[id as int].spec_linked());
            assert(s0[k] == (key, id));
            self.tree.lemma_wf();
            lemma_pos_of(s0, k);
            lemma_remove_keeps_order(s0, k);
            lemma_keys_match_remove(s0, t0, k);
        }
        let found = self.tree.remove(key, id);
        assert(found);
        self.mark_detached(id);
        proof {
            let t1 = self.timers@;
            lemma_keys_match_frame(self.tree@, t0, t1);
            assert forall|x: usize| x < t1.len() implies (#[trigger] t1[x as int].spec_linked()
                <==> has_id(self.tree@, x)) by {
                if x != id {
                    assert(t1[x as int] == t0[x as int]);
                    assert(t0[x as int].spec_linked() <==> has_id(s0, x));
                }
            }
        }
        Some(id)
    }

    /// Unlink the timer that expires first and return its id.
    pub fn pop_first(&mut self) -> (r: Option<usize>)
        requires
            old(self).wf(),
        ensures
            final(self).wf(),
            old(self).entries().len() == 0 ==> r is None && *final(self) == *old(self),
            old(self).entries().len() > 0 ==> r == Some(old(self).entries()[0].1)
                && final(self).entries() == old(self).entries().drop_first()
                && final(self).shape() == tree_first_removed(old(self).shape())
                && unchanged_except(old(self).timers(), final(self).timers(), r->0)
                && same_but_linked(final(self).timers()[r->0 as int], old(self).timers()[r->0 as int])
                && !final(self).timers()[r->0 as int].spec_linked(),
    {
        let ghost s0 = self.tree@;
        let ghost t0 = self.timers@;
        proof {
            self.tree.lemma_wf();
            if s0.len() > 0 {
                lemma_remove_keeps_order(s0, 0);
                lemma_keys_match_remove(s0, t0, 0);
                assert(s0.remove(0) =~= s0.drop_first());
            }
        }
        match self.tree.pop_first() {
            None => None,
            Some(e) => {
                let id = e.1;
                assert(s0[0] == e);
                self.mark_detached(id);
                proof {
                    let t1 = self.timers@;
                    lemma_keys_match_frame(self.tree@, t0, t1);
                    assert forall|x: usize| x < t1.len() implies (#[trigger] t1[x as int].spec_linked()
                        <==> has_id(self.tree@, x)) by {
                        if x != id {
                            assert(t1[x as int] == t0[x as int]);
                            assert(t0[x as int].spec_linked() <==> has_id(s0, x));
                        }
                    }
                }
                Some(id)
            },
        }
    }

    /// Set the deadline of a detached timer.
    fn set_detached_deadline(&mut self, id: usize, deadline: u32)
        requires
            old(self).wf(),
            id < old(self).timers().len(),
            !old(self).timers()[id as int].spec_linked(),
        ensures
            final(self).wf(),
            final(self).entries() == old(self).entries(),
            unchanged_except(old(self).timers(), final(self).timers(), id),
            same_but_deadline(final(self).timers()[id as int], old(self).timers()[id as int]),
            final(self).timers()[id as int].spec_deadline() == deadline,
    {
        let ghost t0 = self.timers@;
        let mut e = self.timers[id];
        e.deadline = deadline;
        self.timers[id] = e;
        proof {
            let t1 = self.timers@;
            let s = self.tree@;
            assert(!t0[id as int].spec_linked());
            assert forall|k: int| 0 <= k < s.len() implies (#[trigger] s[k]).1 < t1.len() && s[k].0
                == t1[s[k].1 as int].spec_deadline() by {
                if s[k].1 == id {
                    assert(has_id(s, id));
                } else {
                    assert(t1[s[k].1 as int] == t0[s[k].1 as int]);
                }
            }
            assert forall|x: usize| x < t1.len() implies (#[trigger] t1[x as int].spec_linked()
                <==> has_id(s, x)) by {
                if x != id {
                    assert(t1[x as int] == t0[x as int]);
                }
                assert(t0[x as int].spec_linked() <==> has_id(s, x));
            }
        }
    }

    /// Lower the deadline of every linked timer by `elapsed`, saturating at
    /// zero, keeping the queue in order of deadline and then id.
    pub fn advance(&mut self, elapsed: u32)
        requires
            old(self).wf(),
        ensures
            final(self).wf(),
            final(self).entries() == advanced(old(self).entries(), elapsed as u64),
            final(self).timers().len() == old(self).timers().len(),
            forall|j: int| 0 <= j < old(self).timers().len() ==> lowered(
                old(self).timers()[j],
                #[trigger] final(self).timers()[j],
                elapsed,
            ),
            forall|j: int| 0 <= j < old(self).timers().len() && !old(self).timers()[j].spec_linked()
                ==> #[trigger] final(self).timers()[j] == old(self).timers()[j],
    {
        let ghost s0 = self.tree@;
        let ghost t0 = self.timers@;
        proof {
            self.tree.lemma_wf();
            lemma_advanced(s0, elapsed as u64);
        }
        self.tree.lower_keys(elapsed as u64);
        let ghost s1 = self.tree@;
        let mut i: usize = 0;
        while i < self.timers.len()
            invariant
                self.tree.wf(),
                self.tree@ == s1,
                s1 == advanced(s0, elapsed as u64),
                0 <= i <= self.timers@.len(),
                self.timers@.len() == t0.len(),
                forall|j: int| 0 <= j < i ==> lowered(t0[j], #[trigger] self.timers@[j], elapsed),
                forall|j: int| 0 <= j < i && !t0[j].spec_linked() ==> #[trigger] self.timers@[j] == t0[j],
                forall|j: int| i <= j < t0.len() ==> #[trigger] self.timers@[j] == t0[j],
            decreases t0.len() - i,
        {
            let mut e = self.timers[i];
            if e.linked {
                e.deadline = e.deadline.saturating_sub(elapsed);
                self.timers[i] = e;
            }
            proof {
                assert(lowered(t0[i as int], self.timers@[i as int], elapsed));
            }
            i = i + 1;
        }
        proof {
            let t1 = self.timers@;
            assert forall|k: int| 0 <= k < s1.len() implies (#[trigger] s1[k]).1 < t1.len() && s1[k].0
                == t1[s1[k].1 as int].spec_deadline() by {
                let l = lower_keys(s0, elapsed as u64);
                assert(s1.contains(s1[k]));
                assert(l.contains(s1[k]));
                let m = choose|m: int| 0 <= m < l.len() && l[m] == s1[k];
                let id = s0[m].1;
                assert(s0[m].1 < t0.len() && s0[m].0 == t0[id as int].spec_deadline());
                assert(has_id(s0, id));
                assert(t0[id as int].spec_linked());
                assert(lowered(t0[id as int], t1[id as int], elapsed));
            }
            assert forall|x: usize| x < t1.len() implies (#[trigger] t1[x as int].spec_linked()
                <==> has_id(s1, x)) by {
                assert(lowered(t0[x as int], t1[x as int], elapsed));
                assert(t0[x as int].spec_linked() <==> has_id(s0, x));
            }
        }
    }

    /// Pop the timer that expires first, restart it with its full period and
    /// link it again; returns the timer that now expires first.
    pub fn dispatch_expired(&mut self) -> (r: Option<usize>)
        requires
            old(self).wf(),
        ensures
            final(self).wf(),
            old(self).entries().len() == 0 ==> r is None && *final(self) == *old(self),
            old(self).entries().len() > 0 ==> ({
                let id = old(self).entries()[0].1;
                let t = old(self).timers()[id as int];
                &&& final(self).entries() == sorted_insert(
                    old(self).entries().drop_first(),
                    (t.spec_duration() as u64, id),
                )
                &&& unchanged_except(old(self).timers(), final(self).timers(), id)
                &&& same_but_deadline(final(self).timers()[id as int], t)
                &&& final(self).timers()[id as int].spec_deadline() == t.spec_duration()
                &&& r == Some(final(self).entries()[0].1)
            }),
    {
        match self.pop_first() {
            None => None,
            Some(id) => {
                let d = self.timers[id].duration;
                proof {
                    old(self).tree.lemma_wf();
                }
                self.set_detached_deadline(id, d);
                self.insert(id);
                self.first()
            },
        }
    }

    /// The timer with id `id` serves the real-time thread `thread`.
    fn serves_rt(&self, id: usize, thread: usize) -> (r: bool)
        requires
            id < self.timers().len(),
        ensures
            r == is_rt_of(self.timers()[id as int], thread),
    {
        let e = &self.timers[id];
        match e.timer_type {
            KTimerType::Rt => match e.thread {
                Some(t) => t == thread,
                None => false,
            },
            KTimerType::Cfs => false,
        }
    }

    /// Find the first timer in queue order that serves the real-time thread
    /// `thread`, restart it with its full period and put it back in order.
    /// Returns whether there was one.
    pub fn reset_rt_ktimer_deadline(&mut self, thread: usize) -> (r: bool)
        requires
            old(self).wf(),
        ensures
            final(self).wf(),
            r == (first_rt_pos(old(self).entries(), old(self).timers(), thread) < old(self).entries().len()),
            !r ==> final(self).entries() == old(self).entries() && final(self).timers() == old(self).timers(),
            r ==> ({
                let p = first_rt_pos(old(self).entries(), old(self).timers(), thread);
                let id = old(self).entries()[p].1;
                let t = old(self).timers()[id as int];
                &&& final(self).entries() == sorted_insert(
                    old(self).entries().remove(p),
                    (t.spec_duration() as u64, id),
                )
                &&& unchanged_except(old(self).timers(), final(self).timers(), id)
                &&& same_but_deadline(final(self).timers()[id as int], t)
                &&& final(self).timers()[id as int].spec_deadline() == t.spec_duration()
            }),
    {
        let ghost s0 = self.tree@;
        let ghost t0 = self.timers@;
        proof {
            self.tree.lemma_wf();
            lemma_first_rt_pos(s0, t0, thread);
        }
        let mut cur = self.first();
        let ghost mut k: int = 0;
        while cur.is_some()
            invariant
                self.wf(),
                self.tree@ == s0,
                self.timers@ == t0,
                s0 == old(self).tree@,
                t0 == old(self).timers@,
                s0.len() <= usize::MAX,
                0 <= k <= s0.len(),
                cur == (if k < s0.len() {
                    Some(s0[k].1)
                } else {
                    None
                }),
                forall|j: int| 0 <= j < k ==> !is_rt_of(t0[(#[trigger] s0[j]).1 as int], thread),
                sorted(s0),
                ids_distinct(s0),
            decreases s0.len() - k,
        {
            let id = cur.unwrap();
            assert(s0[k].1 < t0.len());
            if self.serves_rt(id, thread) {
                proof {
                    lemma_first_rt_pos(s0, t0, thread);
                    assert(first_rt_pos(s0, t0, thread) == k) by {
                        let p = first_rt_pos(s0, t0, thread);
                        if p < k {
                            assert(!is_rt_of(t0[s0[p].1 as int], thread));
                        }
                        if p > k {
                            assert(!is_rt_of(t0[s0[k].1 as int], thread));
                        }
                    }
                    assert(has_id(s0, id));
                    lemma_pos_of(s0, k);
                }
                self.remove(id);
                let d = self.timers[id].duration;
                self.set_detached_deadline(id, d);
                self.insert(id);
                return true;
            }
            proof {
                assert(has_id(s0, id));
                lemma_pos_of(s0, k);
            }
            cur = self.next(id);
            proof {
                k = k + 1;
            }
        }
        proof {
            lemma_first_rt_pos(s0, t0, thread);
            let p = first_rt_pos(s0, t0, thread);
            if p < s0.len() {
                assert(!is_rt_of(t0[s0[p].1 as int], thread));
            }
        }
        false
    }

    /// When the timer that expires first serves the real-time thread `thread`,
    /// which yields after running `elapsed` ticks: unlink it, give it the rest
    /// of its period as deadline, lower the other deadlines by `elapsed` and
    /// link it again. Returns whether that happened; otherwise nothing changes.
    pub fn yield_rt_ktimer(&mut self, thread: usize, elapsed: u32) -> (r: bool)
        requires
            old(self).wf(),
            old(self).entries().len() > 0 && is_rt_of(
                old(self).timers()[old(self).entries()[0].1 as int],
                thread,
            ) ==> elapsed <= old(self).timers()[old(self).entries()[0].1 as int].spec_duration(),
        ensures
            final(self).wf(),
            r == (old(self).entries().len() > 0 && is_rt_of(
                old(self).timers()[old(self).entries()[0].1 as int],
                thread,
            )),
            !r ==> final(self).entries() == old(self).entries() && final(self).timers() == old(self).timers(),
            r ==> ({
                let id = old(self).entries()[0].1;
                let t = old(self).timers()[id as int];
                let d = (t.spec_duration() - elapsed) as u32;
                &&& final(self).entries() == sorted_insert(
                    advanced(old(self).entries().drop_first(), elapsed as u64),
                    (d as u64, id),
                )
                &&& final(self).timers().len() == old(self).timers().len()
                &&& same_but_deadline(final(self).timers()[id as int], t)
                &&& final(self).timers()[id as int].spec_deadline() == d
                &&& forall|j: int|
                    0 <= j < old(self).timers().len() && j != id ==> lowered(
                        old(self).timers()[j],
                        #[trigger] final(self).timers()[j],
                        elapsed,
                    )
            }),
    {
        let id = match self.first() {
            None => {
                return false;
            },
            Some(id) => id,
        };
        proof {
            self.tree.lemma_wf();
            assert(self.tree@[0].1 < self.timers@.len());
        }
        if !self.serves_rt(id, thread) {
            return false;
        }
        self.pop_first();
        let ghost t1 = self.timers@;
        let d = self.timers[id].duration - elapsed;
        self.set_detached_deadline(id, d);
        let ghost t2 = self.timers@;
        proof {
            self.tree.lemma_wf();
            lemma_advanced(self.tree@, elapsed as u64);
        }
        self.advance(elapsed);
        proof {
            assert(lowered(t2[id as int], self.timers@[id as int], elapsed));
            self.tree.lemma_wf();
        }
        self.insert(id);
        proof {
            let t = self.timers@;
            let t0 = old(self).timers@;
            assert forall|j: int| 0 <= j < t0.len() && j != id implies lowered(
                t0[j],
                #[trigger] t[j],
                elapsed,
            ) by {
                assert(t1[j] == t0[j]);
                assert(t2[j] == t1[j]);
            }
        }
        true
    }

    /// Restart the timer that expires first with its full period, put it back
    /// in order, and return that period as the value for the SysTick reload
    /// register.
    pub fn program_next_systick(&mut self) -> (r: Option<u32>)
        requires
            old(self).wf(),
        ensures
            final(self).wf(),
            old(self).entries().len() == 0 ==> r is None && *final(self) == *old(self),
            old(self).entries().len() > 0 ==> ({
                let id = old(self).entries()[0].1;
                let t = old(self).timers()[id as int];
                &&& r == Some(t.spec_duration())
                &&& final(self).entries() == sorted_insert(
                    old(self).entries().drop_first(),
                    (t.spec_duration() as u64, id),
                )
                &&& unchanged_except(old(self).timers(), final(self).timers(), id)
                &&& same_but_deadline(final(self).timers()[id as int], t)
                &&& final(self).timers()[id as int].spec_deadline() == t.spec_duration()
            }),
    {
        match self.pop_first() {
            None => None,
            Some(id) => {
                let reload = self.timers[id].duration;
                proof {
                    old(self).tree.lemma_wf();
                }
                self.set_detached_deadline(id, reload);
                self.insert(id);
                Some(reload)
            },
        }
    }

    /// The SysTick reload value for the earliest deadline, when it fits.
    pub fn next_reload(&self) -> (r: Option<u32>)
        requires
            self.wf(),
        ensures
            r == (if self.entries().len() == 0 {
                None
            } else {
                spec_reload_from_ticks(self.entries()[0].0 as u32)
            }),
    {
        match self.next_deadline() {
            None => None,
            Some(d) => reload_from_ticks(d),
        }
    }
}

impl Default for KTimerQueue {
    /// An empty queue with no timers.
    fn default() -> (q: Self)
        ensures
            q.wf(),
            q.entries() == Seq::<Entry>::empty(),
            q.timers() == Seq::<KTimerEntity>::empty(),
            q.shape() is None,
    {
        KTimerQueue::new()
    }
}


/// The reload value for an interval counts the interval's ticks down to
/// zero: it is one less than the interval, and there is one exactly when the
/// interval is at least one tick and its reload fits the 24-bit register.
pub proof fn lemma_reload_from_ticks(ticks: u32)
    ensures
        spec_reload_from_ticks(ticks) is Some <==> (1 <= ticks && ticks <= SYSTICK_RELOAD_MAX + 1),
        spec_reload_from_ticks(ticks) matches Some(r) ==> r + 1 == ticks && r <= SYSTICK_RELOAD_MAX,
{
}

/// Lowering a linked timer's deadline by `d` takes exactly `d` ticks off it,
/// unless that would go below zero, when it stops at zero; an unlinked
/// timer keeps its deadline, and every timer keeps its other fields.
pub proof fn lemma_lowered(a: KTimerEntity, b: KTimerEntity, d: u32)
    requires
        lowered(a, b, d),
    ensures
        b.spec_duration() == a.spec_duration(),
        b.spec_timer_type() == a.spec_timer_type(),
        b.spec_thread() == a.spec_thread(),
        b.spec_linked() == a.spec_linked(),
        !a.spec_linked() ==> b.spec_deadline() == a.spec_deadline(),
        a.spec_linked() ==> b.spec_deadline() <= a.spec_deadline(),
        a.spec_linked() && a.spec_deadline() >= d ==> b.spec_deadline() + d == a.spec_deadline(),
        a.spec_linked() && a.spec_deadline() < d ==> b.spec_deadline() == 0,
{
}

} // verus!
