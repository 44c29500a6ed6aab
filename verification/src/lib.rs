//! A cooperative-plus-preemptive priority task scheduler for a small
//! unikernel executive, together with the blocking mutex built on top of it.
//!
//! The scheduler multiplexes one CPU among kernel tasks, each with its own
//! stack pair. It owns every task control block and hands out only `TaskId`
//! handles. Dispatch is priority-aware with FIFO rotation inside a level;
//! a task that exits is reclaimed in two phases, because it cannot free the
//! stack it is still running on.
//!
//! The architecture layer is deliberately outside this crate: the stack-swap
//! primitive, interrupt masking and the boot-stack hook are supplied by the
//! host. Wherever the kernel would call `switch`, the scheduler here returns
//! a [`scheduler::SwitchRequest`] naming the suspending and the resuming
//! task and the stack pointer to load; the host performs the swap (writing
//! the suspending task's stack pointer into its control block's slot) and
//! must keep interrupts masked around [`scheduler::Scheduler::schedule`].

mod error;
mod laws;
mod mutex;
mod queue;
mod scheduler;
mod spinlock;
mod task;

pub use error::Error;
pub use laws::{
    exactly_one, lemma_block_wakeup_roundtrip, lemma_deferred_reclaim, lemma_dispatch_priority,
    lemma_fifo_rotation, lemma_idle_only, lemma_reschedule_preserves_count, lemma_single_running,
    lemma_task_partition,
};
pub use mutex::{Mutex, MutexGuard, MutexView};
pub use queue::PriorityTaskQueue;
pub use scheduler::{SchedView, Scheduler, SwitchRequest};
pub use spinlock::SpinlockIrqSave;
pub use task::{
    Priority, StackRegion, Task, TaskId, TaskStatus, CONTEXT_FRAME_SIZE, HIGH_PRIO, LOW_PRIO,
    NORMAL_PRIO, NO_PRIORITIES, STACK_SIZE,
};
