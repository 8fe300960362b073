# rtsched

A runtime scheduler for Cortex-M systems, verified with Verus.

- `src/rbtree.rs`: a red-black tree of `(key, id)` entries. Its view is the
  sequence of entries in ascending key order, entries with equal keys in
  ascending id order (the id breaks ties, as an entity's address would).
  Every operation is proved against that view, and the red-black invariants
  (no red node with a red child, equal black height on every path) are part
  of the tree's well-formedness, so the longest path stays within
  `2 log2(n + 1)` nodes. An insertion repairs the tree with at most two
  rotations, a removal with at most three. The shape is stated as well:
  `tree_inserted`, `tree_removed` and `tree_first_removed` say which nodes,
  colors and root an insertion or removal leaves.
- `src/ktimer.rs`: the kernel timer queue. It owns its timer entities, named
  by id, and keeps the linked ones ordered by deadline in the tree (earliest
  deadline first). SysTick reload values are computed here.
- `src/sched.rs`: threads, the CFS run queue ordered by virtual runtime, and
  the scheduler's decisions: what a SysTick does to the timers, and which
  thread runs after a PendSV (`spec_schedule` states the decision).
- `src/clock.rs`: the system clock frequency and ticks per millisecond.
- `app/lib.rs`: the board-facing part that Verus does not see: the global
  scheduler behind a critical section, SysTick and SCB register accesses,
  and the SVCall/PendSV context-switch handlers.
