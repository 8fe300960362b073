//! Runtime scheduler for Cortex-M: a kernel timer queue for earliest-deadline
//! scheduling of real-time threads, and a CFS run queue for the other
//! threads, both built on a red-black tree.
use vstd::prelude::*;

pub mod clock;
pub mod ktimer;
pub mod rbtree;
pub mod sched;

pub use clock::Clock;
pub use ktimer::{reload_from_ticks, KTimerEntity, KTimerQueue, KTimerType, SYSTICK_RELOAD_MAX};
pub use rbtree::RBTree;
pub use sched::{RunQueue, SchedEntity, Scheduler, Thread, ThreadState, ThreadType};

verus! {

} // verus!
