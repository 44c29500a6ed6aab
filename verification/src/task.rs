//! Task control blocks: identity, status, priority and stack regions.

use vstd::prelude::*;

verus! {

/// Number of distinct priority levels.
pub const NO_PRIORITIES: usize = 8;

/// Bytes of one stack region.
pub const STACK_SIZE: usize = 16384;

/// Bytes that one saved context frame occupies at the upper end of a stack.
pub const CONTEXT_FRAME_SIZE: usize = 64;

/// Scheduling priority: a small integer below [`NO_PRIORITIES`]; a higher
/// value wins, ties are served FIFO within the level.
pub type Priority = u8;

/// The lowest priority; also what the idle task is registered with.
pub const LOW_PRIO: Priority = 0;

/// The default priority of ordinary tasks.
pub const NORMAL_PRIO: Priority = 4;

/// The highest priority.
pub const HIGH_PRIO: Priority = 7;

/// Identity of a task. Ids are handed out monotonically and are reused only
/// together with the control block that owns them.
#[derive(Clone, Copy, PartialEq, Eq, Structural, Debug)]
pub struct TaskId(pub u64);

/// The lifecycle state of a task.
#[derive(Clone, Copy, PartialEq, Eq, Structural, Debug)]
pub enum TaskStatus {
    /// Slot released; the control block is about to be reclaimed.
    TaskInvalid,
    /// In the ready queue, eligible to run.
    TaskReady,
    /// Currently executing on the CPU.
    TaskRunning,
    /// Waiting in some synchronization primitive's queue.
    TaskBlocked,
    /// Exited; awaiting deferred reclaim.
    TaskFinished,
    /// Reserved state of the single idle task.
    TaskIdle,
}

/// A contiguous stack region. Stacks grow downward, so the initial stack
/// pointer is the region's upper end, `base + size`.
#[derive(Clone, Copy, PartialEq, Eq, Structural, Debug)]
pub struct StackRegion {
    /// Lowest address of the region.
    pub base: usize,
    /// Length of the region in bytes.
    pub size: usize,
}

/// Stack pointer of the context frame that the model keeps at the upper end
/// of a region: both a freshly prepared frame and a saved context live there.
pub open spec fn spec_context_sp(r: StackRegion) -> int {
    r.base + r.size - CONTEXT_FRAME_SIZE
}

impl StackRegion {
    /// A usable region: non-null, of the fixed stack length, and within the
    /// address space.
    pub open spec fn wf(self) -> bool {
        &&& self.base > 0
        &&& self.size == STACK_SIZE
        &&& self.base + self.size <= usize::MAX
    }

    /// Whether `sp` is a stack pointer inside this region.
    pub open spec fn spec_contains_sp(self, sp: int) -> bool {
        self.base <= sp <= self.base + self.size
    }

    /// The initial stack pointer of the region.
    pub fn bottom(&self) -> (r: usize)
        requires
            self.wf(),
        ensures
            r == self.base + self.size,
    {
        self.base + self.size
    }
}

/// A task control block. The scheduler is its single owner; everyone else
/// holds only the [`TaskId`].
#[derive(Clone, Copy, PartialEq, Eq, Structural, Debug)]
pub struct Task {
    /// Identity of the task.
    pub id: TaskId,
    /// Lifecycle state.
    pub status: TaskStatus,
    /// Scheduling priority.
    pub prio: Priority,
    /// The task's main stack.
    pub stack: StackRegion,
    /// The task's interrupt stack, loaded by the interrupt entry path.
    pub ist: StackRegion,
    /// The in-stack location from which the stack-swap primitive resumes the
    /// task; written on suspension and by [`Task::create_stack_frame`], zero
    /// while the task has never been suspended and holds no prepared frame.
    pub last_stack_pointer: usize,
    /// The address the prepared top frame returns to; recorded when the
    /// frame is built, so the first swap onto this stack lands there.
    pub entry: usize,
}

impl Task {
    /// A well-formed control block: usable stack regions, a priority inside
    /// the level range, and a saved stack pointer that is either unset or
    /// points into the task's own stack; a task that is ready, running or
    /// blocked always has one.
    pub open spec fn wf(self) -> bool {
        &&& self.stack.wf()
        &&& self.ist.wf()
        &&& (self.prio as int) < NO_PRIORITIES as int
        &&& (self.last_stack_pointer == 0 || self.stack.spec_contains_sp(
            self.last_stack_pointer as int,
        ))
        &&& (self.status == TaskStatus::TaskReady || self.status == TaskStatus::TaskRunning
            || self.status == TaskStatus::TaskBlocked) ==> self.stack.spec_contains_sp(
            self.last_stack_pointer as int,
        ) && self.last_stack_pointer != 0
    }

    /// A new control block over the given stack pair, with no saved context.
    pub fn new(id: TaskId, status: TaskStatus, prio: Priority, stack: StackRegion,
        ist: StackRegion) -> (r: Task)
        ensures
            r == (Task { id, status, prio, stack, ist, last_stack_pointer: 0, entry: 0 }),
    {
        Task { id, status, prio, stack, ist, last_stack_pointer: 0, entry: 0 }
    }

    /// Prepares the task's stack so that the first swap onto it lands at
    /// `func`, with a return chain into the task-exit path. The model keeps
    /// the frame's position and its return target; its bytes belong to the
    /// architecture layer.
    pub fn create_stack_frame(&mut self, func: usize)
        requires
            old(self).stack.wf(),
        ensures
            *final(self) == (Task {
                last_stack_pointer: spec_context_sp(old(self).stack) as usize,
                entry: func,
                ..*old(self)
            }),
    {
        let sp = self.stack.base + self.stack.size - CONTEXT_FRAME_SIZE;
        self.last_stack_pointer = sp;
        self.entry = func;
    }
}

} // verus!
