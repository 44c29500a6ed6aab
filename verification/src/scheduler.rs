//! The scheduler core: task lifecycle, priority dispatch and deferred
//! reclaim.
//!
//! The scheduler owns every task control block in an arena keyed by
//! [`TaskId`]; queues hold ids, never pointers. Suspension itself belongs to
//! the architecture layer: where the kernel would call its stack-swap
//! primitive, [`Scheduler::schedule`] returns a [`SwitchRequest`] and the
//! host performs the swap. In the kernel, `ready`, `finished` and the arena
//! each sit behind an IRQ-safe spinlock (see [`crate::SpinlockIrqSave`]);
//! the state modelled here is the state those locks guard, and
//! [`Scheduler::schedule`] must run with interrupts masked.

use vstd::prelude::*;
use vstd::pervasive::VecAdditionalExecFns;

use crate::error::Error;
use crate::queue::{
    best_prio, empty_from, lemma_best_prio_at_least, lemma_best_prio_bounds,
    lemma_best_prio_skips_empty, queue_contains, PriorityTaskQueue,
};
use crate::task::{
    spec_context_sp, Priority, StackRegion, Task, TaskId, TaskStatus, CONTEXT_FRAME_SIZE,
    LOW_PRIO, NORMAL_PRIO, NO_PRIORITIES, STACK_SIZE,
};

verus! {

/// Whether a task counts towards [`Scheduler::number_of_tasks`]: ready,
/// running or blocked, but not idle, finished or invalid.
pub open spec fn is_active(t: Task) -> bool {
    t.status == TaskStatus::TaskReady || t.status == TaskStatus::TaskRunning || t.status
        == TaskStatus::TaskBlocked
}

/// The number of active tasks in `ts`.
pub open spec fn active_count(ts: Seq<Task>) -> int
    decreases ts.len(),
{
    if ts.len() == 0 {
        0
    } else {
        active_count(ts.drop_last()) + if is_active(ts.last()) {
            1int
        } else {
            0int
        }
    }
}

/// No two tasks of `ts` share an id.
pub open spec fn ids_unique(ts: Seq<Task>) -> bool {
    forall|i: int, j: int|
        0 <= i < ts.len() && 0 <= j < ts.len() && i != j ==> (#[trigger] ts[i].id) != (
        #[trigger] ts[j].id)
}

pub proof fn lemma_active_count_bounds(ts: Seq<Task>)
    ensures
        0 <= active_count(ts) <= ts.len(),
    decreases ts.len(),
{
    if ts.len() > 0 {
        lemma_active_count_bounds(ts.drop_last());
    }
}

pub proof fn lemma_active_count_update(ts: Seq<Task>, i: int, t: Task)
    requires
        0 <= i < ts.len(),
    ensures
        active_count(ts.update(i, t)) == active_count(ts) - (if is_active(ts[i]) {
            1int
        } else {
            0int
        }) + (if is_active(t) {
            1int
        } else {
            0int
        }),
    decreases ts.len(),
{
    if i == ts.len() - 1 {
        assert(ts.update(i, t).drop_last() =~= ts.drop_last());
    } else {
        assert(ts.update(i, t).drop_last() =~= ts.drop_last().update(i, t));
        lemma_active_count_update(ts.drop_last(), i, t);
    }
}

pub proof fn lemma_active_count_push(ts: Seq<Task>, t: Task)
    ensures
        active_count(ts.push(t)) == active_count(ts) + (if is_active(t) {
            1int
        } else {
            0int
        }),
{
    assert(ts.push(t).drop_last() =~= ts);
}

pub proof fn lemma_active_count_remove(ts: Seq<Task>, i: int)
    requires
        0 <= i < ts.len(),
    ensures
        active_count(ts.remove(i)) == active_count(ts) - (if is_active(ts[i]) {
            1int
        } else {
            0int
        }),
    decreases ts.len(),
{
    if i == ts.len() - 1 {
        assert(ts.remove(i) =~= ts.drop_last());
    } else {
        assert(ts.remove(i).drop_last() =~= ts.drop_last().remove(i));
        assert(ts.remove(i).last() == ts.last());
        lemma_active_count_remove(ts.drop_last(), i);
    }
}

/// A task that counts is there to be counted.
pub proof fn lemma_active_count_member(ts: Seq<Task>, i: int)
    requires
        0 <= i < ts.len(),
    ensures
        is_active(ts[i]) ==> active_count(ts) >= 1,
        !is_active(ts[i]) ==> active_count(ts) <= ts.len() - 1,
    decreases ts.len(),
{
    lemma_active_count_bounds(ts.drop_last());
    if i < ts.len() - 1 {
        lemma_active_count_member(ts.drop_last(), i);
        lemma_active_count_bounds(ts);
    }
}

/// What the host hands to the architecture's stack-swap primitive: it saves
/// the suspending task's context on that task's stack, writes the resulting
/// stack pointer into the slot of `old_id`'s control block, and loads
/// `new_stack_pointer`, resuming `new_id`.
#[derive(Clone, Copy, PartialEq, Eq, Structural, Debug)]
pub struct SwitchRequest {
    /// The task being suspended; its control block receives the saved stack
    /// pointer. It is always the task that was current when the dispatch
    /// decision was made, never the incoming one.
    pub old_id: TaskId,
    /// The task being resumed.
    pub new_id: TaskId,
    /// The stack pointer to load, read from the resuming task's slot.
    pub new_stack_pointer: usize,
}

/// The scheduler's state as contracts speak of it: the concrete queues and
/// the arena, abstracted to sequences.
#[verifier::ext_equal]
pub ghost struct SchedView {
    /// Whether [`Scheduler::add_idle_task`] has run.
    pub initialized: bool,
    /// The task on the CPU.
    pub current: TaskId,
    /// The idle task.
    pub idle: TaskId,
    /// Per-priority FIFO levels of ready task ids.
    pub ready: Seq<Seq<TaskId>>,
    /// Ids whose control blocks await reclaim, oldest first.
    pub finished: Seq<TaskId>,
    /// Every control block the scheduler owns, in insertion order.
    pub tasks: Seq<Task>,
    /// The count [`Scheduler::number_of_tasks`] reports.
    pub count: int,
    /// The next fresh id.
    pub next_id: int,
    /// The next fresh stack region's base address.
    pub next_stack_base: int,
}

impl SchedView {
    /// Whether a control block with id `id` exists.
    pub open spec fn has(self, id: TaskId) -> bool {
        exists|i: int| 0 <= i < self.tasks.len() && self.tasks[i].id == id
    }

    /// The arena index of the control block with id `id`.
    pub open spec fn idx_of(self, id: TaskId) -> int {
        choose|i: int| 0 <= i < self.tasks.len() && self.tasks[i].id == id
    }

    /// The control block with id `id`.
    pub open spec fn task_of(self, id: TaskId) -> Task {
        self.tasks[self.idx_of(id)]
    }

    /// Whether `id` waits in the ready queue.
    pub open spec fn in_ready(self, id: TaskId) -> bool {
        queue_contains(self.ready, id)
    }

    /// The well-formedness every operation preserves. It carries the
    /// scheduler's accounting invariants: ids are unique, every status pins
    /// where its task sits (ready tasks in the ready queue, invalid tasks in
    /// the finished list, at most one running task and it is current), the
    /// idle task is the single idle-status block and is never queued, and
    /// the task count equals the number of active blocks.
    pub open spec fn wf(self) -> bool {
        &&& self.ready.len() == NO_PRIORITIES
        &&& ids_unique(self.tasks)
        &&& forall|i: int| 0 <= i < self.tasks.len() ==> (#[trigger] self.tasks[i]).wf()
        &&& self.count == active_count(self.tasks)
        &&& 0 <= self.next_id <= u64::MAX
        &&& STACK_SIZE <= self.next_stack_base <= usize::MAX
        &&& forall|i: int|
            0 <= i < self.tasks.len() ==> (#[trigger] self.tasks[i]).id.0 < self.next_id
        &&& (!self.initialized ==> self.tasks.len() == 0 && self.finished.len() == 0 && self.count
            == 0 && empty_from(self.ready, 0) && self.next_id == 0 && self.next_stack_base
            == STACK_SIZE)
        &&& (self.initialized ==> self.has(self.idle) && self.has(self.current) && self.task_of(
            self.idle,
        ).status == TaskStatus::TaskIdle && self.task_of(self.idle).prio == LOW_PRIO
            && self.task_of(self.current).status != TaskStatus::TaskInvalid)
        &&& forall|i: int|
            0 <= i < self.tasks.len() ==> (((#[trigger] self.tasks[i]).status
                == TaskStatus::TaskIdle) <==> self.tasks[i].id == self.idle)
        &&& forall|i: int|
            0 <= i < self.tasks.len() && (#[trigger] self.tasks[i]).status
                == TaskStatus::TaskRunning ==> self.tasks[i].id == self.current
        &&& forall|i: int|
            0 <= i < self.tasks.len() && (#[trigger] self.tasks[i]).status
                == TaskStatus::TaskFinished ==> self.tasks[i].id == self.current
        &&& forall|p: int, k: int|
            0 <= p < self.ready.len() && 0 <= k < self.ready[p].len() ==> self.has(
                #[trigger] self.ready[p][k],
            ) && self.task_of(self.ready[p][k]).status == TaskStatus::TaskReady && self.task_of(
                self.ready[p][k],
            ).prio as int == p
        &&& forall|p: int, k1: int, k2: int|
            0 <= p < self.ready.len() && 0 <= k1 < self.ready[p].len() && 0 <= k2
                < self.ready[p].len() && k1 != k2 ==> (#[trigger] self.ready[p][k1]) != (
            #[trigger] self.ready[p][k2])
        &&& forall|i: int|
            0 <= i < self.tasks.len() && (#[trigger] self.tasks[i]).status
                == TaskStatus::TaskReady ==> queue_contains(self.ready, self.tasks[i].id)
        &&& forall|k: int|
            0 <= k < self.finished.len() ==> self.has(#[trigger] self.finished[k])
                && self.task_of(self.finished[k]).status == TaskStatus::TaskInvalid
        &&& forall|k1: int, k2: int|
            0 <= k1 < self.finished.len() && 0 <= k2 < self.finished.len() && k1 != k2 ==> (
            #[trigger] self.finished[k1]) != (#[trigger] self.finished[k2])
        &&& forall|i: int|
            0 <= i < self.tasks.len() && (#[trigger] self.tasks[i]).status
                == TaskStatus::TaskInvalid ==> self.finished.contains(self.tasks[i].id)
    }
}

/// The arena index of a present id is the index of its entry.
pub proof fn lemma_idx_of(v: SchedView, i: int)
    requires
        ids_unique(v.tasks),
        0 <= i < v.tasks.len(),
    ensures
        v.has(v.tasks[i].id),
        v.idx_of(v.tasks[i].id) == i,
{
    assert(v.has(v.tasks[i].id));
    let j = v.idx_of(v.tasks[i].id);
    assert(0 <= j < v.tasks.len() && v.tasks[j].id == v.tasks[i].id);
}

/// Whether [`Scheduler::spawn`] can serve a request without exhausting a
/// resource: either a reclaimed control block is free for reuse, or a fresh
/// id and a fresh stack pair can still be carved out.
pub open spec fn spawn_fits(pre: SchedView) -> bool {
    pre.finished.len() > 0 || (pre.next_id < u64::MAX && pre.next_stack_base + 2 * STACK_SIZE
        <= usize::MAX)
}

/// The id a successful [`Scheduler::spawn`] returns: the oldest reclaimed id
/// when one is free, a fresh one otherwise.
pub open spec fn spawned_id(pre: SchedView) -> TaskId {
    if pre.finished.len() > 0 {
        pre.finished[0]
    } else {
        TaskId(pre.next_id as u64)
    }
}

/// The state after a successful [`Scheduler::spawn`]: the new task is ready
/// at the back of its priority level with a freshly prepared stack frame,
/// and the count has grown by one. Nothing else — in particular neither
/// `current` nor any other task — changes: spawning alone never preempts.
pub open spec fn spawn_post(pre: SchedView, func: usize, prio: Priority) -> SchedView {
    if pre.finished.len() > 0 {
        let tid = pre.finished[0];
        let i = pre.idx_of(tid);
        let t = Task {
            status: TaskStatus::TaskReady,
            prio,
            last_stack_pointer: spec_context_sp(pre.tasks[i].stack) as usize,
            entry: func,
            ..pre.tasks[i]
        };
        SchedView {
            finished: pre.finished.drop_first(),
            tasks: pre.tasks.update(i, t),
            ready: pre.ready.update(prio as int, pre.ready[prio as int].push(tid)),
            count: pre.count + 1,
            ..pre
        }
    } else {
        let tid = TaskId(pre.next_id as u64);
        let stack = StackRegion { base: pre.next_stack_base as usize, size: STACK_SIZE };
        let ist = StackRegion {
            base: (pre.next_stack_base + STACK_SIZE) as usize,
            size: STACK_SIZE,
        };
        let t = Task {
            id: tid,
            status: TaskStatus::TaskReady,
            prio,
            stack,
            ist,
            last_stack_pointer: spec_context_sp(stack) as usize,
            entry: func,
        };
        SchedView {
            tasks: pre.tasks.push(t),
            ready: pre.ready.update(prio as int, pre.ready[prio as int].push(tid)),
            count: pre.count + 1,
            next_id: pre.next_id + 1,
            next_stack_base: pre.next_stack_base + 2 * STACK_SIZE,
            ..pre
        }
    }
}

/// The state after [`Scheduler::block_current_task`]: the current task is
/// blocked, everything else is untouched.
pub open spec fn block_post(pre: SchedView) -> SchedView {
    SchedView {
        tasks: pre.tasks.update(
            pre.idx_of(pre.current),
            Task { status: TaskStatus::TaskBlocked, ..pre.task_of(pre.current) },
        ),
        ..pre
    }
}

/// The state after [`Scheduler::wakeup_task`]: a blocked task becomes ready
/// and joins the back of its priority level; waking a task in any other
/// state — a second wakeup included — changes nothing.
pub open spec fn wakeup_post(pre: SchedView, id: TaskId) -> SchedView {
    if pre.has(id) && pre.task_of(id).status == TaskStatus::TaskBlocked {
        let t = pre.task_of(id);
        SchedView {
            tasks: pre.tasks.update(pre.idx_of(id), Task { status: TaskStatus::TaskReady, ..t }),
            ready: pre.ready.update(t.prio as int, pre.ready[t.prio as int].push(id)),
            ..pre
        }
    } else {
        pre
    }
}

impl SchedView {
    /// A copy of this state with `id`'s status replaced.
    pub open spec fn with_status(self, id: TaskId, st: TaskStatus) -> SchedView {
        SchedView {
            tasks: self.tasks.update(self.idx_of(id), Task { status: st, ..self.task_of(id) }),
            ..self
        }
    }

    /// A copy of this state with `id`'s saved stack pointer replaced.
    pub open spec fn with_sp(self, id: TaskId, sp: usize) -> SchedView {
        SchedView {
            tasks: self.tasks.update(
                self.idx_of(id),
                Task { last_stack_pointer: sp, ..self.task_of(id) },
            ),
            ..self
        }
    }

    /// A copy of this state with `id` appended to ready level `p`.
    pub open spec fn with_ready_push(self, p: int, id: TaskId) -> SchedView {
        SchedView { ready: self.ready.update(p, self.ready[p].push(id)), ..self }
    }

    /// The least priority level dispatch will accept: the current task's own
    /// level while it can keep running — so only equal or higher-priority
    /// ready work takes the CPU from it — and the bottom level otherwise.
    pub open spec fn min_prio(self) -> int {
        if self.task_of(self.current).status == TaskStatus::TaskRunning {
            self.task_of(self.current).prio as int
        } else {
            LOW_PRIO as int
        }
    }

    /// Whether the ready queue offers a task dispatch will take.
    pub open spec fn has_ready_candidate(self) -> bool {
        best_prio(self.ready) >= self.min_prio()
    }

    /// Whether the current task cannot stay on the CPU: it is neither
    /// running nor the idle task, so it has blocked or finished.
    pub open spec fn cur_unrunnable(self) -> bool {
        self.task_of(self.current).status != TaskStatus::TaskRunning && self.task_of(
            self.current,
        ).status != TaskStatus::TaskIdle
    }

    /// Whom dispatch hands the CPU to: the head of the highest acceptable
    /// ready level; failing that, the idle task if the current task cannot
    /// go on; otherwise nobody — no switch is needed.
    pub open spec fn next_choice(self) -> Option<TaskId> {
        if self.has_ready_candidate() {
            Some(self.ready[best_prio(self.ready)][0])
        } else if self.cur_unrunnable() {
            Some(self.idle)
        } else {
            None
        }
    }
}

/// The state after [`Scheduler::schedule`]. When a switch happens, the
/// incoming task is marked running and leaves the ready queue; the outgoing
/// task is demoted to the back of its ready level if it was running, moves
/// to the finished list as invalid if it had finished, and keeps its status
/// if it was blocked or idle; its control block receives the stack pointer
/// that the swap primitive saves.
pub open spec fn sched_post(pre: SchedView) -> SchedView {
    match pre.next_choice() {
        None => pre,
        Some(next) => {
            let picked = if pre.has_ready_candidate() {
                let b = best_prio(pre.ready);
                SchedView { ready: pre.ready.update(b, pre.ready[b].drop_first()), ..pre }
                    .with_status(next, TaskStatus::TaskRunning)
            } else {
                pre
            };
            let cur = pre.current;
            let parked = if picked.task_of(cur).status == TaskStatus::TaskRunning {
                picked.with_status(cur, TaskStatus::TaskReady).with_ready_push(
                    picked.task_of(cur).prio as int,
                    cur,
                )
            } else if picked.task_of(cur).status == TaskStatus::TaskFinished {
                let marked = picked.with_status(cur, TaskStatus::TaskInvalid);
                SchedView { finished: marked.finished.push(cur), ..marked }
            } else {
                picked
            };
            let suspended = parked.with_sp(
                cur,
                spec_context_sp(parked.task_of(cur).stack) as usize,
            );
            SchedView { current: next, ..suspended }
        },
    }
}

/// The swap [`Scheduler::schedule`] asks the host to perform, if any: the
/// slot written is always the outgoing task's, and the pointer loaded is
/// what the incoming task's slot held when the decision fell.
pub open spec fn sched_switch(pre: SchedView) -> Option<SwitchRequest> {
    match pre.next_choice() {
        None => None,
        Some(next) => Some(
            SwitchRequest {
                old_id: pre.current,
                new_id: next,
                new_stack_pointer: pre.task_of(next).last_stack_pointer,
            },
        ),
    }
}

/// The state after deferred cleanup: the oldest reclaimed id, if any, has
/// left the finished list and its control block the arena.
pub open spec fn cleanup_post(pre: SchedView) -> SchedView {
    if pre.finished.len() == 0 {
        pre
    } else {
        SchedView {
            finished: pre.finished.drop_first(),
            tasks: pre.tasks.remove(pre.idx_of(pre.finished[0])),
            ..pre
        }
    }
}

/// The state after [`Scheduler::reschedule`]: one deferred cleanup, then
/// dispatch.
pub open spec fn resched_post(pre: SchedView) -> SchedView {
    sched_post(cleanup_post(pre))
}

/// The swap [`Scheduler::reschedule`] asks for.
pub open spec fn resched_switch(pre: SchedView) -> Option<SwitchRequest> {
    sched_switch(cleanup_post(pre))
}

/// The state right after [`Scheduler::exit`] has marked the current task:
/// finished, and out of the count.
pub open spec fn exit_mark(pre: SchedView) -> SchedView {
    SchedView { count: pre.count - 1, ..pre.with_status(pre.current, TaskStatus::TaskFinished) }
}

/// The scheduler singleton. It is built once by [`Scheduler::new`], then
/// armed by [`Scheduler::add_idle_task`] on the boot stack; every other
/// operation demands that initialization in its precondition, mirroring the
/// kernel's two-phase lifecycle.
pub struct Scheduler {
    /// Id of the task which is currently running.
    current_task: TaskId,
    /// Id of the idle task.
    idle_task: TaskId,
    /// Queues of tasks which are ready.
    ready_queue: PriorityTaskQueue,
    /// Ids of tasks which are finished and can be released, oldest first.
    finished_tasks: Vec<TaskId>,
    /// Every control block, keyed by its id field; ids are unique.
    tasks: Vec<Task>,
    /// Number of active tasks managed by the scheduler.
    no_tasks: usize,
    /// Source of fresh task ids.
    next_id: u64,
    /// Base address of the next stack region pair to carve out.
    next_stack_base: usize,
    /// Whether the idle task has been installed.
    initialized: bool,
}

impl View for Scheduler {
    type V = SchedView;

    closed spec fn view(&self) -> SchedView {
        SchedView {
            initialized: self.initialized,
            current: self.current_task,
            idle: self.idle_task,
            ready: self.ready_queue@,
            finished: self.finished_tasks@,
            tasks: self.tasks@,
            count: self.no_tasks as int,
            next_id: self.next_id as int,
            next_stack_base: self.next_stack_base as int,
        }
    }
}

impl Scheduler {
    /// The scheduler's invariant; every public operation preserves it.
    pub open spec fn inv(&self) -> bool {
        self@.wf()
    }

    /// Create a new scheduler. Nothing may be scheduled before
    /// [`Scheduler::add_idle_task`] has armed it.
    pub fn new() -> (s: Scheduler)
        ensures
            s.inv(),
            !s@.initialized,
    {
        let s = Scheduler {
            current_task: TaskId(0),
            idle_task: TaskId(0),
            ready_queue: PriorityTaskQueue::new(),
            finished_tasks: Vec::new(),
            tasks: Vec::new(),
            no_tasks: 0,
            next_id: 0,
            next_stack_base: STACK_SIZE,
            initialized: false,
        };
        s
    }

    /// The arena index of `id`'s control block.
    fn locate(&self, id: TaskId) -> (i: usize)
        requires
            self@.has(id),
            ids_unique(self@.tasks),
        ensures
            i < self@.tasks.len(),
            self@.tasks[i as int].id == id,
            self@.idx_of(id) == i as int,
    {
        let n = self.tasks.len();
        let mut i: usize = 0;
        while i < n
            invariant
                n == self@.tasks.len(),
                self@.has(id),
                ids_unique(self@.tasks),
                i <= n,
                forall|k: int| 0 <= k < i ==> self@.tasks[k].id != id,
            decreases n - i,
        {
            if self.tasks[i].id == id {
                proof {
                    lemma_idx_of(self@, i as int);
                }
                return i;
            }
            i = i + 1;
        }
        proof {
            assert(false);
        }
        0
    }

    /// Replaces the control block at arena index `i`.
    fn set_task(&mut self, i: usize, t: Task)
        requires
            i < old(self)@.tasks.len(),
        ensures
            final(self)@ == (SchedView {
                tasks: old(self)@.tasks.update(i as int, t),
                ..old(self)@
            }),
            final(self).ready_queue == old(self).ready_queue,
    {
        self.tasks.set(i, t);
        proof {
            assert(self@ =~~= (SchedView {
                tasks: old(self)@.tasks.update(i as int, t),
                ..old(self)@
            }));
        }
    }

    /// Draws a fresh id from the monotonic counter.
    fn get_tid(&mut self) -> (r: TaskId)
        requires
            old(self)@.next_id < u64::MAX,
        ensures
            final(self)@ == (SchedView { next_id: old(self)@.next_id + 1, ..old(self)@ }),
            final(self).ready_queue == old(self).ready_queue,
            r.0 as int == old(self)@.next_id,
    {
        let id = TaskId(self.next_id);
        self.next_id = self.next_id + 1;
        proof {
            assert(self@ =~~= (SchedView { next_id: old(self)@.next_id + 1, ..old(self)@ }));
        }
        id
    }

    /// Installs the boot context as the idle task: initialization. Called
    /// exactly once, on the boot stack, with interrupts disabled, before any
    /// other scheduler call. The idle task becomes both `current` and
    /// `idle`; the host must then point the CPU at the stack pair that
    /// [`Scheduler::get_current_stacks`] reports, replacing the temporary
    /// boot stack.
    pub fn add_idle_task(&mut self)
        requires
            old(self).inv(),
            !old(self)@.initialized,
        ensures
            final(self).inv(),
            final(self)@.initialized,
            final(self)@.current == final(self)@.idle,
            final(self)@.tasks.len() == 1,
            final(self)@.task_of(final(self)@.idle).status == TaskStatus::TaskIdle,
            final(self)@.count == 0,
            final(self)@.finished.len() == 0,
            empty_from(final(self)@.ready, 0),
    {
        let tid = self.get_tid();
        let stack = StackRegion { base: self.next_stack_base, size: STACK_SIZE };
        let ist = StackRegion { base: self.next_stack_base + STACK_SIZE, size: STACK_SIZE };
        self.next_stack_base = self.next_stack_base + 2 * STACK_SIZE;
        let idle = Task::new(tid, TaskStatus::TaskIdle, LOW_PRIO, stack, ist);
        self.tasks.push(idle);
        self.idle_task = tid;
        self.current_task = tid;
        self.initialized = true;
        proof {
            let v = self@;
            lemma_active_count_push(old(self)@.tasks, idle);
            assert forall|i: int| 0 <= i < v.tasks.len() implies (#[trigger] v.tasks[i]).wf() by {
                assert(v.tasks[i] == idle);
            }
            lemma_idx_of(v, 0);
        }
    }

    /// The number of tasks the scheduler manages: those ready, running or
    /// blocked; the idle task and tasks awaiting reclaim do not count.
    pub fn number_of_tasks(&self) -> (r: usize)
        requires
            self.inv(),
        ensures
            r as int == active_count(self@.tasks),
            r as int == self@.count,
    {
        self.no_tasks
    }

    /// The number of control blocks currently held, reclaimed ones excluded;
    /// the idle task and blocks awaiting reclaim are included.
    pub fn number_of_tcbs(&self) -> (r: usize)
        ensures
            r as int == self@.tasks.len(),
    {
        self.tasks.len()
    }

    /// The id of the current task.
    pub fn get_current_taskid(&self) -> (r: TaskId)
        requires
            self.inv(),
            self@.initialized,
        ensures
            r == self@.current,
    {
        self.current_task
    }

    /// The initial stack pointers of the current task's stack pair: the main
    /// stack and the interrupt stack.
    pub fn get_current_stacks(&self) -> (r: (usize, usize))
        requires
            self.inv(),
            self@.initialized,
        ensures
            r.0 == self@.task_of(self@.current).stack.base + self@.task_of(
                self@.current,
            ).stack.size,
            r.1 == self@.task_of(self@.current).ist.base + self@.task_of(self@.current).ist.size,
    {
        let i = self.locate(self.current_task);
        let t = self.tasks[i];
        (t.stack.bottom(), t.ist.bottom())
    }

    /// The initial stack pointer of the current task's main stack, loaded as
    /// the kernel stack on interrupt entry.
    pub fn get_kernel_stack(&self) -> (r: usize)
        requires
            self.inv(),
            self@.initialized,
        ensures
            r == self@.task_of(self@.current).stack.base + self@.task_of(self@.current).stack.size,
    {
        let i = self.locate(self.current_task);
        self.tasks[i].stack.bottom()
    }

    /// The priority of the current task.
    pub fn get_current_priority(&self) -> (r: Priority)
        requires
            self.inv(),
            self@.initialized,
        ensures
            r == self@.task_of(self@.current).prio,
    {
        let i = self.locate(self.current_task);
        self.tasks[i].prio
    }

    /// The priority of the task with id `tid`; an unknown id reports the
    /// default priority.
    pub fn get_priority(&self, tid: TaskId) -> (r: Priority)
        requires
            self.inv(),
        ensures
            self@.has(tid) ==> r == self@.task_of(tid).prio,
            !self@.has(tid) ==> r == NORMAL_PRIO,
    {
        let n = self.tasks.len();
        let mut i: usize = 0;
        while i < n
            invariant
                n == self@.tasks.len(),
                ids_unique(self@.tasks),
                i <= n,
                forall|k: int| 0 <= k < i ==> self@.tasks[k].id != tid,
            decreases n - i,
        {
            if self.tasks[i].id == tid {
                proof {
                    lemma_idx_of(self@, i as int);
                }
                return self.tasks[i].prio;
            }
            i = i + 1;
        }
        NORMAL_PRIO
    }

    /// Spawn a new task that will first run at `func`, at priority `prio`.
    /// The oldest reclaimed control block is revived when there is one — its
    /// stack pair is retained, only the frame is rebuilt — and a fresh block
    /// with a fresh stack pair is carved out otherwise. The task is enqueued
    /// ready; the caller keeps running until it reschedules. Fails only on
    /// resource exhaustion: when nothing can be reused and the id space or
    /// the stack address space is spent.
    pub fn spawn(&mut self, func: usize, prio: Priority) -> (r: Result<TaskId, Error>)
        requires
            old(self).inv(),
            old(self)@.initialized,
            (prio as int) < NO_PRIORITIES as int,
        ensures
            final(self).inv(),
            final(self)@.initialized,
            spawn_fits(old(self)@) ==> r == Ok::<TaskId, Error>(spawned_id(old(self)@))
                && final(self)@ == spawn_post(old(self)@, func, prio),
            !spawn_fits(old(self)@) ==> r == Err::<TaskId, Error>(Error::NotEnoughMemory)
                && final(self)@ == old(self)@,
            final(self)@.current == old(self)@.current,
            final(self)@.task_of(final(self)@.current) == old(self)@.task_of(old(self)@.current),
    {
        let ghost pre = self@;
        if self.finished_tasks.len() > 0 {
            // reuse the oldest reclaimed control block
            let tid = self.finished_tasks.remove(0);
            proof {
                assert(pre.finished[0] == tid);
                assert(pre.has(tid));
                let i0 = pre.idx_of(tid);
                assert(self@.tasks[i0].id == tid);
                assert(self@.has(tid));
            }
            let i = self.locate(tid);
            let n = self.tasks.len();
            let old_t = self.tasks[i];
            let mut t = Task {
                status: TaskStatus::TaskReady,
                prio,
                last_stack_pointer: 0,
                entry: 0,
                ..old_t
            };
            proof {
                lemma_idx_of(pre, i as int);
                lemma_active_count_member(pre.tasks, i as int);
                assert(pre.task_of(tid).status == TaskStatus::TaskInvalid);
                assert(!is_active(pre.tasks[i as int]));
                assert(active_count(pre.tasks) <= n - 1);
                assert(pre.tasks[i as int].wf());
            }
            t.create_stack_frame(func);
            self.set_task(i, t);
            self.ready_queue.push(prio, tid);
            self.no_tasks = self.no_tasks + 1;
            proof {
                lemma_active_count_update(pre.tasks, i as int, t);
                assert(self@ =~~= spawn_post(pre, func, prio));
                lemma_spawn_reuse_wf(pre, func, prio, i as int);
                lemma_idx_of(self@, pre.idx_of(pre.current));
            }
            Ok(tid)
        } else {
            if self.next_id == u64::MAX {
                return Err(Error::NotEnoughMemory);
            }
            if self.next_stack_base > usize::MAX - 2 * STACK_SIZE {
                return Err(Error::NotEnoughMemory);
            }
            let tid = self.get_tid();
            let stack = StackRegion { base: self.next_stack_base, size: STACK_SIZE };
            let ist = StackRegion { base: self.next_stack_base + STACK_SIZE, size: STACK_SIZE };
            self.next_stack_base = self.next_stack_base + 2 * STACK_SIZE;
            let mut t = Task::new(tid, TaskStatus::TaskReady, prio, stack, ist);
            t.create_stack_frame(func);
            self.tasks.push(t);
            let n = self.tasks.len();
            self.ready_queue.push(prio, tid);
            proof {
                lemma_active_count_push(pre.tasks, t);
                lemma_active_count_bounds(pre.tasks);
                assert(active_count(pre.tasks) + 1 <= n <= usize::MAX);
            }
            self.no_tasks = self.no_tasks + 1;
            proof {
                assert(self@ =~~= spawn_post(pre, func, prio));
                lemma_spawn_fresh_wf(pre, func, prio);
                lemma_idx_of(self@, pre.idx_of(pre.current));
            }
            Ok(tid)
        }
    }

    /// Block the current task: it leaves the CPU's ownership the moment the
    /// caller reschedules. The returned handle is what the synchronization
    /// primitive stores in its own wait queue — and it must store it before
    /// releasing the lock that guards its condition, then reschedule; the
    /// scheduler itself enqueues blocked tasks nowhere.
    pub fn block_current_task(&mut self) -> (r: TaskId)
        requires
            old(self).inv(),
            old(self)@.initialized,
            old(self)@.task_of(old(self)@.current).status == TaskStatus::TaskRunning,
        ensures
            final(self).inv(),
            r == old(self)@.current,
            final(self)@ == block_post(old(self)@),
    {
        let ghost pre = self@;
        let i = self.locate(self.current_task);
        let t = self.tasks[i];
        self.set_task(i, Task { status: TaskStatus::TaskBlocked, ..t });
        proof {
            lemma_active_count_update(pre.tasks, i as int, self@.tasks[i as int]);
            assert(self@ =~~= block_post(pre));
            lemma_block_wf(pre);
        }
        self.current_task
    }

    /// Wake a blocked task: make it ready and enqueue it at its saved
    /// priority. Waking a task in any other state is a silent no-op, so a
    /// racing second wakeup is harmless.
    pub fn wakeup_task(&mut self, id: TaskId)
        requires
            old(self).inv(),
            old(self)@.initialized,
        ensures
            final(self).inv(),
            final(self)@ == wakeup_post(old(self)@, id),
    {
        let ghost pre = self@;
        let n = self.tasks.len();
        let mut i: usize = 0;
        while i < n
            invariant
                pre == old(self)@,
                self@ == pre,
                pre.wf(),
                pre.initialized,
                n == self@.tasks.len(),
                i <= n,
                forall|k: int| 0 <= k < i ==> self@.tasks[k].id != id,
            decreases n - i,
        {
            if self.tasks[i].id == id {
                proof {
                    lemma_idx_of(pre, i as int);
                }
                let t = self.tasks[i];
                if t.status == TaskStatus::TaskBlocked {
                    self.set_task(i, Task { status: TaskStatus::TaskReady, ..t });
                    self.ready_queue.push(t.prio, id);
                    proof {
                        lemma_active_count_update(pre.tasks, i as int, self@.tasks[i as int]);
                        assert(pre.has(id) && pre.task_of(id).status == TaskStatus::TaskBlocked);
                        assert(self@ =~~= wakeup_post(pre, id));
                        lemma_wakeup_wf(pre, id);
                    }
                    return ;
                }
                proof {
                    assert(pre.task_of(id).status != TaskStatus::TaskBlocked);
                    assert(self@ =~~= wakeup_post(pre, id));
                }
                return ;
            }
            i = i + 1;
        }
        proof {
            assert(!pre.has(id));
        }
    }

    /// Dispatch: pick the successor and account the handover. The caller —
    /// the kernel's `reschedule` — must have interrupts masked. When a
    /// switch is due, the returned request names the outgoing task, whose
    /// control block here already carries the stack pointer the swap
    /// primitive saves, and the incoming task with the pointer to load; the
    /// host performs the swap. No request means the current task simply
    /// keeps the CPU.
    #[verifier::rlimit(100)]
    pub fn schedule(&mut self) -> (r: Option<SwitchRequest>)
        requires
            old(self).inv(),
            old(self)@.initialized,
        ensures
            final(self).inv(),
            final(self)@ == sched_post(old(self)@),
            r == sched_switch(old(self)@),
    {
        let ghost pre = self@;
        let cur_id = self.current_task;
        let ci = self.locate(cur_id);
        let cur_status = self.tasks[ci].status;
        let cur_prio = self.tasks[ci].prio;
        proof {
            lemma_idx_of(pre, ci as int);
            assert(pre.tasks[ci as int].wf());
        }
        let min_p: Priority = if cur_status == TaskStatus::TaskRunning {
            cur_prio
        } else {
            LOW_PRIO
        };
        proof {
            assert(min_p as int == pre.min_prio());
        }
        let picked = self.ready_queue.pop_with_prio(min_p);
        let next_id: TaskId;
        match picked {
            Some(nid) => {
                proof {
                    lemma_best_prio_bounds(pre.ready, NO_PRIORITIES as int);
                    assert(pre.has(nid));
                }
                let ni = self.locate(nid);
                let nt = self.tasks[ni];
                self.set_task(ni, Task { status: TaskStatus::TaskRunning, ..nt });
                next_id = nid;
                proof {
                    lemma_idx_of(pre, ni as int);
                    let b = best_prio(pre.ready);
                    let picked_v = (SchedView {
                        ready: pre.ready.update(b, pre.ready[b].drop_first()),
                        ..pre
                    }).with_status(nid, TaskStatus::TaskRunning);
                    assert(self@ =~~= picked_v);
                }
            },
            None => {
                if cur_status != TaskStatus::TaskRunning && cur_status != TaskStatus::TaskIdle {
                    next_id = self.idle_task;
                } else {
                    proof {
                        assert(pre.next_choice() == None::<TaskId>);
                        assert(self@ =~~= pre);
                    }
                    return None;
                }
            },
        }
        // the outgoing task: demote it if it was running, retire it if it
        // had finished, leave a blocked or idle one as it stands
        let ghost picked_v = self@;
        proof {
            assert(picked_v.tasks.len() == pre.tasks.len());
            assert forall|k: int| 0 <= k < picked_v.tasks.len() implies (
            #[trigger] picked_v.tasks[k]).id == pre.tasks[k].id by {}
            assert(ids_unique(picked_v.tasks));
            assert(picked_v.tasks[ci as int].id == cur_id);
            assert(picked_v.has(cur_id));
        }
        let ci2 = self.locate(cur_id);
        let st = self.tasks[ci2].status;
        if st == TaskStatus::TaskRunning {
            let t2 = self.tasks[ci2];
            self.set_task(ci2, Task { status: TaskStatus::TaskReady, ..t2 });
            proof {
                lemma_idx_of(picked_v, ci2 as int);
                assert(picked_v.tasks[ci2 as int].wf());
            }
            self.ready_queue.push(t2.prio, cur_id);
            proof {
                assert(self@ =~~= picked_v.with_status(cur_id, TaskStatus::TaskReady)
                    .with_ready_push(picked_v.task_of(cur_id).prio as int, cur_id));
            }
        } else if st == TaskStatus::TaskFinished {
            let t2 = self.tasks[ci2];
            self.set_task(ci2, Task { status: TaskStatus::TaskInvalid, ..t2 });
            self.finished_tasks.push(cur_id);
            proof {
                lemma_idx_of(picked_v, ci2 as int);
                let marked = picked_v.with_status(cur_id, TaskStatus::TaskInvalid);
                assert(self@ =~~= (SchedView { finished: marked.finished.push(cur_id), ..marked }));
            }
        } else {
            proof {
                lemma_idx_of(picked_v, ci2 as int);
            }
        }
        let ghost parked_v = self@;
        proof {
            assert(parked_v.tasks.len() == pre.tasks.len());
            assert forall|k: int| 0 <= k < parked_v.tasks.len() implies (
            #[trigger] parked_v.tasks[k]).id == pre.tasks[k].id by {}
            assert(ids_unique(parked_v.tasks));
            assert(parked_v.tasks[ci as int].id == cur_id);
            assert(parked_v.has(cur_id));
            if picked.is_some() {
                assert(pre.has(next_id));
                let w = pre.idx_of(next_id);
                assert(parked_v.tasks[w].id == next_id);
            } else {
                let w = pre.idx_of(pre.idle);
                assert(pre.tasks[w].id == next_id);
                assert(parked_v.tasks[w].id == next_id);
            }
            assert(parked_v.has(next_id));
        }
        // read the incoming stack pointer, then model the swap primitive's
        // write into the outgoing task's slot
        let nj = self.locate(next_id);
        let next_sp = self.tasks[nj].last_stack_pointer;
        let ci3 = self.locate(cur_id);
        let t3 = self.tasks[ci3];
        proof {
            lemma_idx_of(parked_v, ci3 as int);
            assert(t3.stack == pre.task_of(cur_id).stack);
            assert(t3.stack.wf());
        }
        let sp = t3.stack.base + t3.stack.size - CONTEXT_FRAME_SIZE;
        self.set_task(ci3, Task { last_stack_pointer: sp, ..t3 });
        self.current_task = next_id;
        proof {
            assert(self@ =~~= (SchedView {
                current: next_id,
                ..parked_v.with_sp(cur_id, spec_context_sp(parked_v.task_of(cur_id).stack) as usize)
            }));
            assert(self@ =~~= sched_post(pre));
            lemma_sched_wf(pre);
            assert(next_sp == pre.task_of(next_id).last_stack_pointer);
        }
        Some(SwitchRequest { old_id: cur_id, new_id: next_id, new_stack_pointer: next_sp })
    }

    /// Deferred reclaim: free at most one finished task's control block —
    /// at most one, to cap the worst-case latency of a reschedule. A task
    /// reaches this point only after dispatch has moved off its stack.
    fn cleanup_tasks(&mut self)
        requires
            old(self).inv(),
            old(self)@.initialized,
        ensures
            final(self).inv(),
            final(self)@ == cleanup_post(old(self)@),
    {
        let ghost pre = self@;
        if self.finished_tasks.len() > 0 {
            let id = self.finished_tasks.remove(0);
            proof {
                assert(pre.finished[0] == id);
                assert(pre.has(id));
                let i0 = pre.idx_of(id);
                assert(self@.tasks[i0].id == id);
                assert(self@.has(id));
            }
            let i = self.locate(id);
            let removed = self.tasks.remove(i);
            proof {
                assert(removed.id == id);
                lemma_idx_of(pre, i as int);
                lemma_active_count_remove(pre.tasks, i as int);
                assert(self@ =~~= cleanup_post(pre));
                lemma_cleanup_wf(pre);
            }
        }
    }

    /// Give up the CPU: run one deferred cleanup, then dispatch. In the
    /// kernel, interrupts are disabled around the dispatch and the swap the
    /// returned request describes; from the suspending task's point of view
    /// the call returns when it is next chosen to run.
    pub fn reschedule(&mut self) -> (r: Option<SwitchRequest>)
        requires
            old(self).inv(),
            old(self)@.initialized,
        ensures
            final(self).inv(),
            final(self)@ == resched_post(old(self)@),
            r == resched_switch(old(self)@),
    {
        self.cleanup_tasks();
        self.schedule()
    }

    /// Terminate the current task. Its control block is marked finished and
    /// dispatch moves off it; the block is reclaimed by a later reschedule,
    /// never now — the stack is still in use until the swap. In the kernel
    /// this call never returns; the returned request is the swap that makes
    /// it so, and the host must perform it. The idle task may not exit.
    pub fn exit(&mut self) -> (r: SwitchRequest)
        requires
            old(self).inv(),
            old(self)@.initialized,
            old(self)@.task_of(old(self)@.current).status == TaskStatus::TaskRunning,
        ensures
            final(self).inv(),
            final(self)@ == resched_post(exit_mark(old(self)@)),
            Some(r) == resched_switch(exit_mark(old(self)@)),
    {
        let ghost pre = self@;
        let i = self.locate(self.current_task);
        let t = self.tasks[i];
        proof {
            lemma_idx_of(pre, i as int);
            lemma_active_count_member(pre.tasks, i as int);
        }
        self.set_task(i, Task { status: TaskStatus::TaskFinished, ..t });
        self.no_tasks = self.no_tasks - 1;
        proof {
            lemma_active_count_update(pre.tasks, i as int, self@.tasks[i as int]);
            assert(self@ =~~= exit_mark(pre));
            lemma_exit_mark_wf(pre);
            lemma_finished_switches(exit_mark(pre));
        }
        let r = self.reschedule();
        match r {
            Some(req) => req,
            None => {
                proof {
                    assert(false);
                }
                SwitchRequest { old_id: TaskId(0), new_id: TaskId(0), new_stack_pointer: 0 }
            },
        }
    }

    /// Terminate the current task abnormally. The effect is that of
    /// [`Scheduler::exit`]; in the kernel the two differ only in how loudly
    /// they are logged.
    pub fn abort(&mut self) -> (r: SwitchRequest)
        requires
            old(self).inv(),
            old(self)@.initialized,
            old(self)@.task_of(old(self)@.current).status == TaskStatus::TaskRunning,
        ensures
            final(self).inv(),
            final(self)@ == resched_post(exit_mark(old(self)@)),
            Some(r) == resched_switch(exit_mark(old(self)@)),
    {
        self.exit()
    }
}

/// Reviving a reclaimed control block preserves the invariant.
pub proof fn lemma_spawn_reuse_wf(pre: SchedView, func: usize, prio: Priority, i: int)
    requires
        pre.wf(),
        pre.initialized,
        (prio as int) < NO_PRIORITIES as int,
        pre.finished.len() > 0,
        i == pre.idx_of(pre.finished[0]),
    ensures
        spawn_post(pre, func, prio).wf(),
{
    let post = spawn_post(pre, func, prio);
    let tid = pre.finished[0];
    assert(pre.has(tid));
    assert(0 <= i < pre.tasks.len() && pre.tasks[i].id == tid);
    assert(pre.task_of(tid).status == TaskStatus::TaskInvalid);
    lemma_active_count_update(pre.tasks, i, post.tasks[i]);
    // the revived task was in no queue and is not the idle or current task
    assert(tid != pre.idle && tid != pre.current);
    assert forall|a: int, b: int|
        0 <= a < post.tasks.len() && 0 <= b < post.tasks.len() && a != b implies (
    #[trigger] post.tasks[a].id) != (#[trigger] post.tasks[b].id) by {
        assert(post.tasks[a].id == pre.tasks[a].id);
        assert(post.tasks[b].id == pre.tasks[b].id);
    }
    assert forall|k: int| 0 <= k < post.tasks.len() && post.tasks[k].id == pre.idle implies k
        == pre.idx_of(pre.idle) by {
        lemma_idx_of(pre, k);
    }
    assert(post.has(post.idle) && post.idx_of(post.idle) == pre.idx_of(pre.idle)) by {
        lemma_idx_of(pre, pre.idx_of(pre.idle));
        lemma_idx_of_post(pre, post, pre.idle);
    }
    assert(post.has(post.current) && post.idx_of(post.current) == pre.idx_of(pre.current)) by {
        lemma_idx_of_post(pre, post, pre.current);
    }
    assert forall|p: int, k: int| 0 <= p < post.ready.len() && 0 <= k
        < post.ready[p].len() implies post.has(#[trigger] post.ready[p][k]) && post.task_of(
        post.ready[p][k],
    ).status == TaskStatus::TaskReady && post.task_of(post.ready[p][k]).prio as int == p by {
        if p == prio as int && k == post.ready[p].len() - 1 {
            lemma_idx_of(post, i);
        } else {
            assert(pre.ready[p][k] == post.ready[p][k]);
            assert(pre.ready[p][k] != tid);
            lemma_idx_of_post(pre, post, pre.ready[p][k]);
        }
    }
    assert forall|k: int| 0 <= k < post.tasks.len() && (#[trigger] post.tasks[k]).status
        == TaskStatus::TaskReady implies queue_contains(post.ready, post.tasks[k].id) by {
        if k == i {
            assert(post.ready[prio as int][post.ready[prio as int].len() - 1] == tid);
        } else {
            assert(pre.tasks[k].status == TaskStatus::TaskReady);
            let (p0, k0) = choose|p0: int, k0: int|
                0 <= p0 < pre.ready.len() && 0 <= k0 < pre.ready[p0].len() && pre.ready[p0][k0]
                    == pre.tasks[k].id;
            if p0 == prio as int {
                assert(post.ready[p0][k0] == pre.tasks[k].id);
            } else {
                assert(post.ready[p0][k0] == pre.tasks[k].id);
            }
        }
    }
    assert forall|k: int| 0 <= k < post.finished.len() implies post.has(
        #[trigger] post.finished[k],
    ) && post.task_of(post.finished[k]).status == TaskStatus::TaskInvalid by {
        assert(post.finished[k] == pre.finished[k + 1]);
        assert(pre.finished[k + 1] != tid);
        lemma_idx_of_post(pre, post, pre.finished[k + 1]);
    }
    assert forall|k: int| 0 <= k < post.tasks.len() && (#[trigger] post.tasks[k]).status
        == TaskStatus::TaskInvalid implies post.finished.contains(post.tasks[k].id) by {
        assert(k != i);
        assert(pre.tasks[k].status == TaskStatus::TaskInvalid);
        let k0 = choose|k0: int| 0 <= k0 < pre.finished.len() && pre.finished[k0] == pre.tasks[k].id;
        assert(k0 != 0);
        assert(post.finished[k0 - 1] == pre.tasks[k].id);
    }
}

/// A fresh control block preserves the invariant.
pub proof fn lemma_spawn_fresh_wf(pre: SchedView, func: usize, prio: Priority)
    requires
        pre.wf(),
        pre.initialized,
        (prio as int) < NO_PRIORITIES as int,
        pre.finished.len() == 0,
        pre.next_id < u64::MAX,
        pre.next_stack_base + 2 * STACK_SIZE <= usize::MAX,
    ensures
        spawn_post(pre, func, prio).wf(),
{
    let post = spawn_post(pre, func, prio);
    let tid = TaskId(pre.next_id as u64);
    let n = pre.tasks.len() as int;
    lemma_active_count_push(pre.tasks, post.tasks[n]);
    assert forall|a: int, b: int|
        0 <= a < post.tasks.len() && 0 <= b < post.tasks.len() && a != b implies (
    #[trigger] post.tasks[a].id) != (#[trigger] post.tasks[b].id) by {}
    assert(post.has(post.idle) && post.idx_of(post.idle) == pre.idx_of(pre.idle)) by {
        lemma_idx_of(pre, pre.idx_of(pre.idle));
        lemma_idx_of_post(pre, post, pre.idle);
    }
    assert(post.has(post.current) && post.idx_of(post.current) == pre.idx_of(pre.current)) by {
        lemma_idx_of_post(pre, post, pre.current);
    }
    assert forall|p: int, k: int| 0 <= p < post.ready.len() && 0 <= k
        < post.ready[p].len() implies post.has(#[trigger] post.ready[p][k]) && post.task_of(
        post.ready[p][k],
    ).status == TaskStatus::TaskReady && post.task_of(post.ready[p][k]).prio as int == p by {
        if p == prio as int && k == post.ready[p].len() - 1 {
            lemma_idx_of(post, n);
        } else {
            assert(pre.ready[p][k] == post.ready[p][k]);
            assert(pre.ready[p][k] != tid);
            lemma_idx_of_post(pre, post, pre.ready[p][k]);
        }
    }
    assert forall|k: int| 0 <= k < post.tasks.len() && (#[trigger] post.tasks[k]).status
        == TaskStatus::TaskReady implies queue_contains(post.ready, post.tasks[k].id) by {
        if k == n {
            assert(post.ready[prio as int][post.ready[prio as int].len() - 1] == tid);
        } else {
            assert(pre.tasks[k].status == TaskStatus::TaskReady);
            let (p0, k0) = choose|p0: int, k0: int|
                0 <= p0 < pre.ready.len() && 0 <= k0 < pre.ready[p0].len() && pre.ready[p0][k0]
                    == pre.tasks[k].id;
            assert(post.ready[p0][k0] == pre.tasks[k].id);
        }
    }
}

/// A blocked current task preserves the invariant.
pub proof fn lemma_block_wf(pre: SchedView)
    requires
        pre.wf(),
        pre.initialized,
        pre.task_of(pre.current).status == TaskStatus::TaskRunning,
    ensures
        block_post(pre).wf(),
{
    let post = block_post(pre);
    let i = pre.idx_of(pre.current);
    assert(0 <= i < pre.tasks.len() && pre.tasks[i].id == pre.current);
    lemma_active_count_update(pre.tasks, i, post.tasks[i]);
    assert forall|a: int, b: int|
        0 <= a < post.tasks.len() && 0 <= b < post.tasks.len() && a != b implies (
    #[trigger] post.tasks[a].id) != (#[trigger] post.tasks[b].id) by {
        assert(post.tasks[a].id == pre.tasks[a].id);
        assert(post.tasks[b].id == pre.tasks[b].id);
    }
    assert(post.has(post.idle) && post.idx_of(post.idle) == pre.idx_of(pre.idle)) by {
        lemma_idx_of(pre, pre.idx_of(pre.idle));
        lemma_idx_of_post(pre, post, pre.idle);
    }
    assert(post.has(post.current) && post.idx_of(post.current) == i) by {
        lemma_idx_of_post(pre, post, pre.current);
    }
    assert forall|p: int, k: int| 0 <= p < post.ready.len() && 0 <= k
        < post.ready[p].len() implies post.has(#[trigger] post.ready[p][k]) && post.task_of(
        post.ready[p][k],
    ).status == TaskStatus::TaskReady && post.task_of(post.ready[p][k]).prio as int == p by {
        assert(pre.ready[p][k] != pre.current);
        lemma_idx_of_post(pre, post, pre.ready[p][k]);
    }
    assert forall|k: int| 0 <= k < post.finished.len() implies post.has(
        #[trigger] post.finished[k],
    ) && post.task_of(post.finished[k]).status == TaskStatus::TaskInvalid by {
        assert(pre.finished[k] != pre.current);
        lemma_idx_of_post(pre, post, pre.finished[k]);
    }
}

/// A woken task preserves the invariant.
pub proof fn lemma_wakeup_wf(pre: SchedView, id: TaskId)
    requires
        pre.wf(),
        pre.initialized,
        pre.has(id),
        pre.task_of(id).status == TaskStatus::TaskBlocked,
    ensures
        wakeup_post(pre, id).wf(),
{
    let post = wakeup_post(pre, id);
    let i = pre.idx_of(id);
    let prio = pre.task_of(id).prio;
    assert(0 <= i < pre.tasks.len() && pre.tasks[i].id == id);
    lemma_active_count_update(pre.tasks, i, post.tasks[i]);
    assert(id != pre.idle);
    assert forall|a: int, b: int|
        0 <= a < post.tasks.len() && 0 <= b < post.tasks.len() && a != b implies (
    #[trigger] post.tasks[a].id) != (#[trigger] post.tasks[b].id) by {
        assert(post.tasks[a].id == pre.tasks[a].id);
        assert(post.tasks[b].id == pre.tasks[b].id);
    }
    assert(post.has(post.idle) && post.idx_of(post.idle) == pre.idx_of(pre.idle)) by {
        lemma_idx_of(pre, pre.idx_of(pre.idle));
        lemma_idx_of_post(pre, post, pre.idle);
    }
    assert(post.has(post.current) && post.idx_of(post.current) == pre.idx_of(pre.current)) by {
        lemma_idx_of(pre, pre.idx_of(pre.current));
        lemma_idx_of_post(pre, post, pre.current);
    }
    assert forall|p: int, k: int| 0 <= p < post.ready.len() && 0 <= k
        < post.ready[p].len() implies post.has(#[trigger] post.ready[p][k]) && post.task_of(
        post.ready[p][k],
    ).status == TaskStatus::TaskReady && post.task_of(post.ready[p][k]).prio as int == p by {
        if p == prio as int && k == post.ready[p].len() - 1 {
            lemma_idx_of(post, i);
        } else {
            assert(pre.ready[p][k] == post.ready[p][k]);
            assert(pre.ready[p][k] != id);
            lemma_idx_of_post(pre, post, pre.ready[p][k]);
        }
    }
    assert forall|k: int| 0 <= k < post.tasks.len() && (#[trigger] post.tasks[k]).status
        == TaskStatus::TaskReady implies queue_contains(post.ready, post.tasks[k].id) by {
        if k == i {
            assert(post.ready[prio as int][post.ready[prio as int].len() - 1] == id);
        } else {
            assert(pre.tasks[k].status == TaskStatus::TaskReady);
            let (p0, k0) = choose|p0: int, k0: int|
                0 <= p0 < pre.ready.len() && 0 <= k0 < pre.ready[p0].len() && pre.ready[p0][k0]
                    == pre.tasks[k].id;
            assert(post.ready[p0][k0] == pre.tasks[k].id);
        }
    }
    assert forall|k: int| 0 <= k < post.finished.len() implies post.has(
        #[trigger] post.finished[k],
    ) && post.task_of(post.finished[k]).status == TaskStatus::TaskInvalid by {
        assert(pre.finished[k] != id);
        lemma_idx_of_post(pre, post, pre.finished[k]);
    }
}

/// Marking the running current task finished preserves the invariant.
pub proof fn lemma_exit_mark_wf(pre: SchedView)
    requires
        pre.wf(),
        pre.initialized,
        pre.task_of(pre.current).status == TaskStatus::TaskRunning,
    ensures
        exit_mark(pre).wf(),
        exit_mark(pre).initialized,
        exit_mark(pre).task_of(exit_mark(pre).current).status == TaskStatus::TaskFinished,
{
    let post = exit_mark(pre);
    let i = pre.idx_of(pre.current);
    assert(0 <= i < pre.tasks.len() && pre.tasks[i].id == pre.current);
    lemma_active_count_update(pre.tasks, i, post.tasks[i]);
    assert forall|a: int, b: int|
        0 <= a < post.tasks.len() && 0 <= b < post.tasks.len() && a != b implies (
    #[trigger] post.tasks[a].id) != (#[trigger] post.tasks[b].id) by {
        assert(post.tasks[a].id == pre.tasks[a].id);
        assert(post.tasks[b].id == pre.tasks[b].id);
    }
    assert(post.has(post.idle) && post.idx_of(post.idle) == pre.idx_of(pre.idle)) by {
        lemma_idx_of(pre, pre.idx_of(pre.idle));
        lemma_idx_of_post(pre, post, pre.idle);
    }
    assert(post.has(post.current) && post.idx_of(post.current) == i) by {
        lemma_idx_of_post(pre, post, pre.current);
    }
    assert forall|p: int, k: int| 0 <= p < post.ready.len() && 0 <= k
        < post.ready[p].len() implies post.has(#[trigger] post.ready[p][k]) && post.task_of(
        post.ready[p][k],
    ).status == TaskStatus::TaskReady && post.task_of(post.ready[p][k]).prio as int == p by {
        assert(pre.ready[p][k] != pre.current);
        lemma_idx_of_post(pre, post, pre.ready[p][k]);
    }
    assert forall|k: int| 0 <= k < post.finished.len() implies post.has(
        #[trigger] post.finished[k],
    ) && post.task_of(post.finished[k]).status == TaskStatus::TaskInvalid by {
        assert(pre.finished[k] != pre.current);
        lemma_idx_of_post(pre, post, pre.finished[k]);
    }
}

/// After removing a control block, every other id still resolves, to the
/// same block.
pub proof fn lemma_idx_of_remove(pre: SchedView, post: SchedView, rm: int, id: TaskId)
    requires
        ids_unique(pre.tasks),
        0 <= rm < pre.tasks.len(),
        post.tasks == pre.tasks.remove(rm),
        pre.has(id),
        pre.tasks[rm].id != id,
    ensures
        ids_unique(post.tasks),
        post.has(id),
        post.task_of(id) == pre.task_of(id),
{
    let i = pre.idx_of(id);
    assert(0 <= i < pre.tasks.len() && pre.tasks[i].id == id);
    assert forall|a: int, b: int|
        0 <= a < post.tasks.len() && 0 <= b < post.tasks.len() && a != b implies (
    #[trigger] post.tasks[a].id) != (#[trigger] post.tasks[b].id) by {
        assert(post.tasks[a] == if a < rm {
            pre.tasks[a]
        } else {
            pre.tasks[a + 1]
        });
        assert(post.tasks[b] == if b < rm {
            pre.tasks[b]
        } else {
            pre.tasks[b + 1]
        });
    }
    if i < rm {
        assert(post.tasks[i].id == id);
        lemma_idx_of(post, i);
    } else {
        assert(i != rm);
        assert(post.tasks[i - 1] == pre.tasks[i]);
        lemma_idx_of(post, i - 1);
    }
}

/// Reclaiming the oldest finished control block preserves the invariant,
/// and touches nothing the dispatcher looks at.
pub proof fn lemma_cleanup_wf(pre: SchedView)
    requires
        pre.wf(),
        pre.initialized,
    ensures
        cleanup_post(pre).wf(),
        cleanup_post(pre).initialized,
        cleanup_post(pre).current == pre.current,
        cleanup_post(pre).idle == pre.idle,
        cleanup_post(pre).ready == pre.ready,
        cleanup_post(pre).count == pre.count,
        cleanup_post(pre).task_of(pre.current) == pre.task_of(pre.current),
        cleanup_post(pre).task_of(pre.idle) == pre.task_of(pre.idle),
        pre.finished.len() > 0 ==> !cleanup_post(pre).has(pre.finished[0])
            && cleanup_post(pre).tasks.len() == pre.tasks.len() - 1,
    decreases 0int,
{
    if pre.finished.len() > 0 {
        let post = cleanup_post(pre);
        let id = pre.finished[0];
        assert(pre.has(id) && pre.task_of(id).status == TaskStatus::TaskInvalid);
        let rm = pre.idx_of(id);
        assert(0 <= rm < pre.tasks.len() && pre.tasks[rm].id == id);
        assert(id != pre.current && id != pre.idle);
        lemma_active_count_remove(pre.tasks, rm);
        assert forall|k: int| 0 <= k < post.tasks.len() implies #[trigger] post.tasks[k] == (if k
            < rm {
            pre.tasks[k]
        } else {
            pre.tasks[k + 1]
        }) by {}
        lemma_idx_of_remove(pre, post, rm, pre.current);
        lemma_idx_of_remove(pre, post, rm, pre.idle);
        assert forall|k: int| 0 <= k < post.tasks.len() implies !(#[trigger] post.tasks[k].id
            == id) by {
            if k < rm {
                assert(post.tasks[k] == pre.tasks[k]);
            } else {
                assert(post.tasks[k] == pre.tasks[k + 1]);
            }
        }
        assert forall|p: int, k: int| 0 <= p < post.ready.len() && 0 <= k
            < post.ready[p].len() implies post.has(#[trigger] post.ready[p][k]) && post.task_of(
            post.ready[p][k],
        ).status == TaskStatus::TaskReady && post.task_of(post.ready[p][k]).prio as int == p by {
            assert(pre.ready[p][k] != id);
            lemma_idx_of_remove(pre, post, rm, pre.ready[p][k]);
        }
        assert forall|k: int| 0 <= k < post.tasks.len() && (#[trigger] post.tasks[k]).status
            == TaskStatus::TaskReady implies queue_contains(post.ready, post.tasks[k].id) by {
            let t = post.tasks[k];
            if k < rm {
                assert(t == pre.tasks[k]);
                assert(queue_contains(pre.ready, pre.tasks[k].id));
            } else {
                assert(t == pre.tasks[k + 1]);
                assert(queue_contains(pre.ready, pre.tasks[k + 1].id));
            }
        }
        assert forall|k: int| 0 <= k < post.finished.len() implies post.has(
            #[trigger] post.finished[k],
        ) && post.task_of(post.finished[k]).status == TaskStatus::TaskInvalid by {
            assert(post.finished[k] == pre.finished[k + 1]);
            assert(pre.finished[k + 1] != id);
            lemma_idx_of_remove(pre, post, rm, pre.finished[k + 1]);
        }
        assert forall|k: int| 0 <= k < post.tasks.len() && (#[trigger] post.tasks[k]).status
            == TaskStatus::TaskInvalid implies post.finished.contains(post.tasks[k].id) by {
            let tid = post.tasks[k].id;
            assert(tid != id);
            if k < rm {
                assert(post.tasks[k] == pre.tasks[k]);
            } else {
                assert(post.tasks[k] == pre.tasks[k + 1]);
            }
            let k0 = choose|k0: int|
                0 <= k0 < pre.finished.len() && pre.finished[k0] == tid;
            assert(pre.finished.contains(tid));
            assert(pre.finished[k0] == tid);
            assert(k0 != 0);
            assert(post.finished[k0 - 1] == tid);
            assert(post.finished.contains(tid));
        }
        assert(!post.has(id)) by {
            if post.has(id) {
                let w = post.idx_of(id);
                assert(post.tasks[w].id == id);
            }
        }
    }
}

/// When the current task has finished, a reschedule always switches away
/// from it.
pub proof fn lemma_finished_switches(v: SchedView)
    requires
        v.wf(),
        v.initialized,
        v.task_of(v.current).status == TaskStatus::TaskFinished,
    ensures
        resched_switch(v).is_some(),
{
    lemma_cleanup_wf(v);
    let mid = cleanup_post(v);
    assert(mid.task_of(mid.current).status == TaskStatus::TaskFinished);
    assert(mid.cur_unrunnable());
}

/// Dispatch preserves the invariant.
#[verifier::rlimit(100)]
pub proof fn lemma_sched_wf(pre: SchedView)
    requires
        pre.wf(),
        pre.initialized,
    ensures
        sched_post(pre).wf(),
        sched_post(pre).initialized,
        sched_post(pre).count == pre.count,
        sched_post(pre).tasks.len() == pre.tasks.len(),
        forall|k: int|
            0 <= k < pre.tasks.len() ==> (#[trigger] sched_post(pre).tasks[k]).id
                == pre.tasks[k].id,
        forall|k: int|
            0 <= k < pre.tasks.len() ==> (#[trigger] sched_post(pre).tasks[k]).prio
                == pre.tasks[k].prio,
{
    let post = sched_post(pre);
    let cur = pre.current;
    let cur_i = pre.idx_of(cur);
    assert(0 <= cur_i < pre.tasks.len() && pre.tasks[cur_i].id == cur);
    let ct = pre.task_of(cur);
    if pre.has_ready_candidate() || pre.cur_unrunnable() {
        let from_queue = pre.has_ready_candidate();
        let b = best_prio(pre.ready);
        let next = if from_queue {
            pre.ready[b][0]
        } else {
            pre.idle
        };
        assert(pre.next_choice() == Some(next));
        if from_queue {
            lemma_best_prio_bounds(pre.ready, NO_PRIORITIES as int);
            assert(pre.has(next) && pre.task_of(next).status == TaskStatus::TaskReady
                && pre.task_of(next).prio as int == b);
            assert(next != pre.idle);
        }
        let ni = pre.idx_of(next);
        assert(0 <= ni < pre.tasks.len() && pre.tasks[ni].id == next);
        let picked = if from_queue {
            (SchedView { ready: pre.ready.update(b, pre.ready[b].drop_first()), ..pre })
                .with_status(next, TaskStatus::TaskRunning)
        } else {
            pre
        };
        assert(picked.tasks.len() == pre.tasks.len());
        assert(forall|k: int|
            0 <= k < picked.tasks.len() ==> (#[trigger] picked.tasks[k]).id == pre.tasks[k].id);
        assert(ids_unique(picked.tasks));
        if from_queue {
            lemma_active_count_update(pre.tasks, ni, picked.tasks[ni]);
        }
        assert(picked.count == active_count(picked.tasks));
        lemma_idx_of_post(pre, picked, cur);
        lemma_idx_of_post(pre, picked, next);
        assert(picked.idx_of(cur) == cur_i && picked.idx_of(next) == ni);
        let pct = picked.task_of(cur);
        // the outgoing task's status in `picked` tells which branch parked it
        assert(pct.status == TaskStatus::TaskRunning <==> (ct.status == TaskStatus::TaskRunning
            || (from_queue && next == cur)));
        let parked = if pct.status == TaskStatus::TaskRunning {
            picked.with_status(cur, TaskStatus::TaskReady).with_ready_push(pct.prio as int, cur)
        } else if pct.status == TaskStatus::TaskFinished {
            let marked = picked.with_status(cur, TaskStatus::TaskInvalid);
            SchedView { finished: marked.finished.push(cur), ..marked }
        } else {
            picked
        };
        assert(parked.tasks.len() == pre.tasks.len());
        assert(forall|k: int|
            0 <= k < parked.tasks.len() ==> (#[trigger] parked.tasks[k]).id == pre.tasks[k].id);
        assert(ids_unique(parked.tasks));
        if pct.status == TaskStatus::TaskRunning || pct.status == TaskStatus::TaskFinished {
            lemma_active_count_update(picked.tasks, cur_i, parked.tasks[cur_i]);
        }
        assert(parked.count == active_count(parked.tasks));
        lemma_idx_of_post(picked, parked, cur);
        lemma_idx_of_post(picked, parked, next);
        assert(parked.idx_of(cur) == cur_i && parked.idx_of(next) == ni);
        let suspended = parked.with_sp(cur, spec_context_sp(parked.task_of(cur).stack) as usize);
        assert(post == (SchedView { current: next, ..suspended }));
        assert(post.tasks.len() == pre.tasks.len());
        assert(forall|k: int|
            0 <= k < post.tasks.len() ==> (#[trigger] post.tasks[k]).id == pre.tasks[k].id);
        assert(forall|k: int|
            0 <= k < post.tasks.len() ==> (#[trigger] post.tasks[k]).prio == pre.tasks[k].prio);
        assert(ids_unique(post.tasks));
        lemma_active_count_update(parked.tasks, cur_i, post.tasks[cur_i]);
        assert(post.count == active_count(post.tasks));
        // pointwise description of the arena after dispatch
        assert(post.tasks[cur_i].stack == ct.stack && ct.stack.wf());
        assert forall|k: int| 0 <= k < post.tasks.len() implies (#[trigger] post.tasks[k]).wf()
            by {
            assert(pre.tasks[k].wf());
            if k == cur_i {
                assert(post.tasks[k].last_stack_pointer as int == spec_context_sp(ct.stack));
            } else if k == ni {
                assert(post.tasks[k] == Task { status: TaskStatus::TaskRunning, ..pre.tasks[k] }
                    || post.tasks[k] == pre.tasks[k]);
            } else {
                assert(post.tasks[k] == pre.tasks[k]);
            }
        }
        // statuses: who is idle, running, finished
        lemma_idx_of_post(parked, post, pre.idle);
        lemma_idx_of_post(parked, post, cur);
        lemma_idx_of_post(parked, post, next);
        assert(post.has(post.idle) && post.has(post.current));
        assert(post.task_of(post.idle).status == TaskStatus::TaskIdle) by {
            let ii = pre.idx_of(pre.idle);
            lemma_idx_of(pre, ii);
            if from_queue {
                assert(ni != ii);
            }
            assert(cur == pre.idle ==> ct.status == TaskStatus::TaskIdle);
            assert(post.tasks[ii].status == TaskStatus::TaskIdle);
            lemma_idx_of(post, ii);
        }
        assert(post.task_of(post.idle).prio == LOW_PRIO) by {
            let ii = pre.idx_of(pre.idle);
            lemma_idx_of(pre, ii);
            lemma_idx_of(post, ii);
            assert(post.tasks[ii].prio == pre.tasks[ii].prio);
        }
        assert(post.task_of(post.current).status != TaskStatus::TaskInvalid) by {
            lemma_idx_of(post, ni);
        }
        assert forall|k: int| 0 <= k < post.tasks.len() implies (((#[trigger] post.tasks[k]).status
            == TaskStatus::TaskIdle) <==> post.tasks[k].id == post.idle) by {
            assert(pre.tasks[k].status == TaskStatus::TaskIdle <==> pre.tasks[k].id == pre.idle);
            if k == cur_i || k == ni {
                assert(next != pre.idle || !from_queue);
            }
        }
        assert forall|k: int| 0 <= k < post.tasks.len() && (#[trigger] post.tasks[k]).status
            == TaskStatus::TaskRunning implies post.tasks[k].id == post.current by {
            if k != ni {
                assert(pre.tasks[k].status == post.tasks[k].status || k == cur_i);
                if k == cur_i {
                    assert(post.tasks[k].status != TaskStatus::TaskRunning);
                } else {
                    assert(pre.tasks[k].status == TaskStatus::TaskRunning ==> pre.tasks[k].id
                        == cur);
                    assert(post.tasks[k].status != TaskStatus::TaskRunning);
                }
            }
        }
        assert forall|k: int| 0 <= k < post.tasks.len() && (#[trigger] post.tasks[k]).status
            == TaskStatus::TaskFinished implies post.tasks[k].id == post.current by {
            if k == cur_i {
                assert(post.tasks[k].status != TaskStatus::TaskFinished);
            } else if k != ni {
                assert(pre.tasks[k].status == TaskStatus::TaskFinished ==> pre.tasks[k].id == cur);
            }
        }
        lemma_sched_wf_queues(pre, post, from_queue, next, pct);
        lemma_sched_wf_ready_membership(pre, post, from_queue, next, pct);
        lemma_sched_wf_finished(pre, post, from_queue, next, pct);
    } else {
        assert(post == pre);
    }
}

/// The queue clauses of the invariant, after dispatch.
#[verifier::rlimit(100)]
#[verifier::spinoff_prover]
pub proof fn lemma_sched_wf_queues(
    pre: SchedView,
    post: SchedView,
    from_queue: bool,
    next: TaskId,
    pct: Task,
)
    requires
        pre.wf(),
        pre.initialized,
        pre.next_choice() == Some(next),
        from_queue == pre.has_ready_candidate(),
        !from_queue ==> next == pre.idle,
        from_queue ==> next == pre.ready[best_prio(pre.ready)][0],
        pct == (if from_queue {
            (SchedView {
                ready: pre.ready.update(
                    best_prio(pre.ready),
                    pre.ready[best_prio(pre.ready)].drop_first(),
                ),
                ..pre
            }).with_status(next, TaskStatus::TaskRunning)
        } else {
            pre
        }).task_of(pre.current),
        post == sched_post(pre),
    ensures
        forall|p: int, k: int|
            0 <= p < post.ready.len() && 0 <= k < post.ready[p].len() ==> post.has(
                #[trigger] post.ready[p][k],
            ) && post.task_of(post.ready[p][k]).status == TaskStatus::TaskReady && post.task_of(
                post.ready[p][k],
            ).prio as int == p,
        forall|p: int, k1: int, k2: int|
            0 <= p < post.ready.len() && 0 <= k1 < post.ready[p].len() && 0 <= k2
                < post.ready[p].len() && k1 != k2 ==> (#[trigger] post.ready[p][k1]) != (
            #[trigger] post.ready[p][k2]),
{
    let cur = pre.current;
    let cur_i = pre.idx_of(cur);
    assert(0 <= cur_i < pre.tasks.len() && pre.tasks[cur_i].id == cur);
    let ct = pre.task_of(cur);
    let b = best_prio(pre.ready);
    if from_queue {
        lemma_best_prio_bounds(pre.ready, NO_PRIORITIES as int);
    }
    let ni = pre.idx_of(next);
    assert(0 <= ni < pre.tasks.len() && pre.tasks[ni].id == next);
    let demoted = pct.status == TaskStatus::TaskRunning;
    let retired = pct.status == TaskStatus::TaskFinished;
    // rebuild the dispatch chain so its updates are visible pointwise
    let picked = if from_queue {
        (SchedView { ready: pre.ready.update(b, pre.ready[b].drop_first()), ..pre }).with_status(
            next,
            TaskStatus::TaskRunning,
        )
    } else {
        pre
    };
    assert(picked.tasks.len() == pre.tasks.len());
    assert(forall|k: int|
        0 <= k < picked.tasks.len() ==> (#[trigger] picked.tasks[k]).id == pre.tasks[k].id);
    assert(ids_unique(picked.tasks));
    lemma_idx_of_post(pre, picked, cur);
    lemma_idx_of_post(pre, picked, next);
    assert(picked.idx_of(cur) == cur_i && picked.idx_of(next) == ni);
    assert(pct == picked.task_of(cur));
    let parked = if demoted {
        picked.with_status(cur, TaskStatus::TaskReady).with_ready_push(pct.prio as int, cur)
    } else if retired {
        let marked = picked.with_status(cur, TaskStatus::TaskInvalid);
        SchedView { finished: marked.finished.push(cur), ..marked }
    } else {
        picked
    };
    assert(parked.tasks.len() == pre.tasks.len());
    assert(forall|k: int|
        0 <= k < parked.tasks.len() ==> (#[trigger] parked.tasks[k]).id == pre.tasks[k].id);
    assert(ids_unique(parked.tasks));
    lemma_idx_of_post(picked, parked, cur);
    lemma_idx_of_post(picked, parked, next);
    assert(parked.idx_of(cur) == cur_i && parked.idx_of(next) == ni);
    let suspended = parked.with_sp(cur, spec_context_sp(parked.task_of(cur).stack) as usize);
    assert(post == (SchedView { current: next, ..suspended }));
    // next sits in the pre queue only at the popped head
    if from_queue {
        assert forall|p: int, k: int| 0 <= p < pre.ready.len() && 0 <= k < pre.ready[p].len() && !(
        p == b && k == 0) implies (#[trigger] pre.ready[p][k]) != next by {
            if p == b {
                assert(pre.ready[p][k] != pre.ready[b][0]);
            } else {
                assert(pre.task_of(pre.ready[p][k]).prio as int == p);
                assert(pre.task_of(next).prio as int == b);
            }
        }
    }
    // the outgoing task sits in the pre queue only if its status was ready
    if ct.status != TaskStatus::TaskReady {
        assert forall|p: int, k: int| 0 <= p < pre.ready.len() && 0 <= k
            < pre.ready[p].len() implies (#[trigger] pre.ready[p][k]) != cur by {
            assert(pre.task_of(pre.ready[p][k]).status == TaskStatus::TaskReady);
        }
    }
    // pointwise arena: statuses after dispatch
    assert(forall|k: int|
        0 <= k < post.tasks.len() ==> (#[trigger] post.tasks[k]).id == pre.tasks[k].id);
    assert(forall|k: int|
        0 <= k < post.tasks.len() ==> (#[trigger] post.tasks[k]).prio == pre.tasks[k].prio);
    assert(forall|k: int|
        0 <= k < post.tasks.len() && k != cur_i && k != ni ==> (#[trigger] post.tasks[k]).status
            == pre.tasks[k].status);
    assert(demoted ==> post.tasks[cur_i].status == TaskStatus::TaskReady);
    assert(retired ==> post.tasks[cur_i].status == TaskStatus::TaskInvalid);
    assert(!demoted && !retired ==> post.tasks[cur_i].status == ct.status);
    assert(from_queue && next != cur ==> post.tasks[ni].status == TaskStatus::TaskRunning);
    // the post ready queue, levelwise
    let popped = if from_queue {
        pre.ready.update(b, pre.ready[b].drop_first())
    } else {
        pre.ready
    };
    assert(demoted ==> post.ready == popped.update(
        pct.prio as int,
        popped[pct.prio as int].push(cur),
    ));
    assert(!demoted ==> post.ready == popped);
    assert forall|p: int, k: int| 0 <= p < post.ready.len() && 0 <= k
        < post.ready[p].len() implies post.has(#[trigger] post.ready[p][k]) && post.task_of(
        post.ready[p][k],
    ).status == TaskStatus::TaskReady && post.task_of(post.ready[p][k]).prio as int == p by {
        let id = post.ready[p][k];
        if demoted && p == pct.prio as int && k == post.ready[p].len() - 1 {
            assert(id == cur);
            lemma_idx_of(post, cur_i);
        } else {
            // an entry carried over from the pre queue
            let k0 = if from_queue && p == b {
                k + 1
            } else {
                k
            };
            assert(pre.ready[p][k0] == id);
            assert(id != next || !from_queue);
            let j = pre.idx_of(id);
            lemma_idx_of(pre, j);
            assert(pre.tasks[j].status == TaskStatus::TaskReady);
            assert(id != cur || ct.status == TaskStatus::TaskReady);
            if from_queue && id == next {
                assert(false);
            }
            assert(j != ni || !from_queue);
            if demoted {
                assert(id != cur);
                assert(j != cur_i);
            }
            assert(post.tasks[j].status == TaskStatus::TaskReady);
            lemma_idx_of(post, j);
        }
    }
    assert forall|p: int, k1: int, k2: int| 0 <= p < post.ready.len() && 0 <= k1
        < post.ready[p].len() && 0 <= k2 < post.ready[p].len() && k1 != k2 implies (
    #[trigger] post.ready[p][k1]) != (#[trigger] post.ready[p][k2]) by {
        let last = post.ready[p].len() - 1;
        if demoted && p == pct.prio as int && (k1 == last || k2 == last) {
            let ko = if k1 == last {
                k2
            } else {
                k1
            };
            if ko != last {
                let k0 = if from_queue && p == b {
                    ko + 1
                } else {
                    ko
                };
                assert(pre.ready[p][k0] == post.ready[p][ko]);
                assert(pre.task_of(pre.ready[p][k0]).status == TaskStatus::TaskReady);
                if ct.status != TaskStatus::TaskReady {
                    assert(pre.ready[p][k0] != cur);
                } else {
                    assert(from_queue && next == cur);
                    assert(pre.ready[p][k0] != cur);
                }
            }
        } else {
            let k10 = if from_queue && p == b {
                k1 + 1
            } else {
                k1
            };
            let k20 = if from_queue && p == b {
                k2 + 1
            } else {
                k2
            };
            assert(pre.ready[p][k10] == post.ready[p][k1]);
            assert(pre.ready[p][k20] == post.ready[p][k2]);
        }
    }

}

/// The finished-list clauses of the invariant, after dispatch.
#[verifier::rlimit(100)]
#[verifier::spinoff_prover]
pub proof fn lemma_sched_wf_finished(
    pre: SchedView,
    post: SchedView,
    from_queue: bool,
    next: TaskId,
    pct: Task,
)
    requires
        pre.wf(),
        pre.initialized,
        pre.next_choice() == Some(next),
        from_queue == pre.has_ready_candidate(),
        !from_queue ==> next == pre.idle,
        from_queue ==> next == pre.ready[best_prio(pre.ready)][0],
        pct == (if from_queue {
            (SchedView {
                ready: pre.ready.update(
                    best_prio(pre.ready),
                    pre.ready[best_prio(pre.ready)].drop_first(),
                ),
                ..pre
            }).with_status(next, TaskStatus::TaskRunning)
        } else {
            pre
        }).task_of(pre.current),
    ensures
        ({
            let post = sched_post(pre);
            &&& forall|k: int|
                0 <= k < post.finished.len() ==> post.has(#[trigger] post.finished[k])
                    && post.task_of(post.finished[k]).status == TaskStatus::TaskInvalid
            &&& forall|k1: int, k2: int|
                0 <= k1 < post.finished.len() && 0 <= k2 < post.finished.len() && k1 != k2 ==> (
                #[trigger] post.finished[k1]) != (#[trigger] post.finished[k2])
            &&& forall|i: int|
                0 <= i < post.tasks.len() && (#[trigger] post.tasks[i]).status
                    == TaskStatus::TaskInvalid ==> post.finished.contains(post.tasks[i].id)
        }),
{
    let post = sched_post(pre);
    let cur = pre.current;
    let cur_i = pre.idx_of(cur);
    assert(0 <= cur_i < pre.tasks.len() && pre.tasks[cur_i].id == cur);
    let ct = pre.task_of(cur);
    let b = best_prio(pre.ready);
    if from_queue {
        lemma_best_prio_bounds(pre.ready, NO_PRIORITIES as int);
    }
    let ni = pre.idx_of(next);
    assert(0 <= ni < pre.tasks.len() && pre.tasks[ni].id == next);
    let demoted = pct.status == TaskStatus::TaskRunning;
    let retired = pct.status == TaskStatus::TaskFinished;
    // rebuild the dispatch chain so its updates are visible pointwise
    let picked = if from_queue {
        (SchedView { ready: pre.ready.update(b, pre.ready[b].drop_first()), ..pre }).with_status(
            next,
            TaskStatus::TaskRunning,
        )
    } else {
        pre
    };
    assert(picked.tasks.len() == pre.tasks.len());
    assert(forall|k: int|
        0 <= k < picked.tasks.len() ==> (#[trigger] picked.tasks[k]).id == pre.tasks[k].id);
    assert(ids_unique(picked.tasks));
    lemma_idx_of_post(pre, picked, cur);
    lemma_idx_of_post(pre, picked, next);
    assert(picked.idx_of(cur) == cur_i && picked.idx_of(next) == ni);
    assert(pct == picked.task_of(cur));
    let parked = if demoted {
        picked.with_status(cur, TaskStatus::TaskReady).with_ready_push(pct.prio as int, cur)
    } else if retired {
        let marked = picked.with_status(cur, TaskStatus::TaskInvalid);
        SchedView { finished: marked.finished.push(cur), ..marked }
    } else {
        picked
    };
    assert(parked.tasks.len() == pre.tasks.len());
    assert(forall|k: int|
        0 <= k < parked.tasks.len() ==> (#[trigger] parked.tasks[k]).id == pre.tasks[k].id);
    assert(ids_unique(parked.tasks));
    lemma_idx_of_post(picked, parked, cur);
    lemma_idx_of_post(picked, parked, next);
    assert(parked.idx_of(cur) == cur_i && parked.idx_of(next) == ni);
    let suspended = parked.with_sp(cur, spec_context_sp(parked.task_of(cur).stack) as usize);
    assert(post == (SchedView { current: next, ..suspended }));
    assert(forall|k: int|
        0 <= k < post.tasks.len() ==> (#[trigger] post.tasks[k]).id == pre.tasks[k].id);
    assert(ids_unique(post.tasks));
    assert(forall|k: int|
        0 <= k < post.tasks.len() && k != cur_i && k != ni ==> (#[trigger] post.tasks[k]).status
            == pre.tasks[k].status);
    assert(demoted ==> post.tasks[cur_i].status == TaskStatus::TaskReady);
    assert(retired ==> post.tasks[cur_i].status == TaskStatus::TaskInvalid);
    assert(!demoted && !retired ==> post.tasks[cur_i].status == ct.status);
    assert(from_queue && next != cur ==> post.tasks[ni].status == TaskStatus::TaskRunning);
    // the finished list
    let post_fin = post.finished;
    assert(retired ==> post_fin == pre.finished.push(cur));
    assert(!retired ==> post_fin == pre.finished);
    assert forall|k: int| 0 <= k < post_fin.len() implies post.has(#[trigger] post_fin[k])
        && post.task_of(post_fin[k]).status == TaskStatus::TaskInvalid by {
        if retired && k == post_fin.len() - 1 {
            assert(post_fin[k] == cur);
            lemma_idx_of(post, cur_i);
        } else {
            let id = pre.finished[k];
            assert(pre.task_of(id).status == TaskStatus::TaskInvalid);
            let j = pre.idx_of(id);
            lemma_idx_of(pre, j);
            assert(j != ni || !from_queue);
            assert(j != cur_i);
            assert(post.tasks[j].status == TaskStatus::TaskInvalid);
            lemma_idx_of(post, j);
        }
    }
    assert forall|k1: int, k2: int| 0 <= k1 < post_fin.len() && 0 <= k2 < post_fin.len() && k1
        != k2 implies (#[trigger] post_fin[k1]) != (#[trigger] post_fin[k2]) by {
        let last = post_fin.len() - 1;
        if retired && (k1 == last || k2 == last) {
            let ko = if k1 == last {
                k2
            } else {
                k1
            };
            if ko != last {
                assert(pre.task_of(pre.finished[ko]).status == TaskStatus::TaskInvalid);
                assert(pre.finished[ko] != cur);
            }
        }
    }
    assert forall|i: int| 0 <= i < post.tasks.len() && (#[trigger] post.tasks[i]).status
        == TaskStatus::TaskInvalid implies post_fin.contains(post.tasks[i].id) by {
        if i == cur_i && retired {
            assert(post_fin[post_fin.len() - 1] == cur);
        } else {
            assert(pre.tasks[i].status == TaskStatus::TaskInvalid);
            assert(pre.finished.contains(pre.tasks[i].id));
            let k0 = choose|k0: int|
                0 <= k0 < pre.finished.len() && pre.finished[k0] == pre.tasks[i].id;
            assert(post_fin[k0] == post.tasks[i].id);
        }
    }
}

/// Every task that dispatch leaves ready is in the ready queue.
#[verifier::rlimit(100)]
#[verifier::spinoff_prover]
pub proof fn lemma_sched_wf_ready_membership(
    pre: SchedView,
    post: SchedView,
    from_queue: bool,
    next: TaskId,
    pct: Task,
)
    requires
        pre.wf(),
        pre.initialized,
        pre.next_choice() == Some(next),
        from_queue == pre.has_ready_candidate(),
        !from_queue ==> next == pre.idle,
        from_queue ==> next == pre.ready[best_prio(pre.ready)][0],
        pct == (if from_queue {
            (SchedView {
                ready: pre.ready.update(
                    best_prio(pre.ready),
                    pre.ready[best_prio(pre.ready)].drop_first(),
                ),
                ..pre
            }).with_status(next, TaskStatus::TaskRunning)
        } else {
            pre
        }).task_of(pre.current),
        post == sched_post(pre),
    ensures
        forall|i: int|
            0 <= i < sched_post(pre).tasks.len() && (#[trigger] sched_post(pre).tasks[i]).status
                == TaskStatus::TaskReady ==> queue_contains(
                sched_post(pre).ready,
                sched_post(pre).tasks[i].id,
            ),
{
    let cur = pre.current;
    let cur_i = pre.idx_of(cur);
    assert(0 <= cur_i < pre.tasks.len() && pre.tasks[cur_i].id == cur);
    let ct = pre.task_of(cur);
    let b = best_prio(pre.ready);
    if from_queue {
        lemma_best_prio_bounds(pre.ready, NO_PRIORITIES as int);
    }
    let ni = pre.idx_of(next);
    assert(0 <= ni < pre.tasks.len() && pre.tasks[ni].id == next);
    let demoted = pct.status == TaskStatus::TaskRunning;
    let retired = pct.status == TaskStatus::TaskFinished;
    // rebuild the dispatch chain so its updates are visible pointwise
    let picked = if from_queue {
        (SchedView { ready: pre.ready.update(b, pre.ready[b].drop_first()), ..pre }).with_status(
            next,
            TaskStatus::TaskRunning,
        )
    } else {
        pre
    };
    assert(picked.tasks.len() == pre.tasks.len());
    assert(forall|k: int|
        0 <= k < picked.tasks.len() ==> (#[trigger] picked.tasks[k]).id == pre.tasks[k].id);
    assert(ids_unique(picked.tasks));
    lemma_idx_of_post(pre, picked, cur);
    lemma_idx_of_post(pre, picked, next);
    assert(picked.idx_of(cur) == cur_i && picked.idx_of(next) == ni);
    assert(pct == picked.task_of(cur));
    let parked = if demoted {
        picked.with_status(cur, TaskStatus::TaskReady).with_ready_push(pct.prio as int, cur)
    } else if retired {
        let marked = picked.with_status(cur, TaskStatus::TaskInvalid);
        SchedView { finished: marked.finished.push(cur), ..marked }
    } else {
        picked
    };
    assert(parked.tasks.len() == pre.tasks.len());
    assert(forall|k: int|
        0 <= k < parked.tasks.len() ==> (#[trigger] parked.tasks[k]).id == pre.tasks[k].id);
    assert(ids_unique(parked.tasks));
    lemma_idx_of_post(picked, parked, cur);
    lemma_idx_of_post(picked, parked, next);
    assert(parked.idx_of(cur) == cur_i && parked.idx_of(next) == ni);
    let suspended = parked.with_sp(cur, spec_context_sp(parked.task_of(cur).stack) as usize);
    assert(post == (SchedView { current: next, ..suspended }));
    // next sits in the pre queue only at the popped head
    if from_queue {
        assert forall|p: int, k: int| 0 <= p < pre.ready.len() && 0 <= k < pre.ready[p].len() && !(
        p == b && k == 0) implies (#[trigger] pre.ready[p][k]) != next by {
            if p == b {
                assert(pre.ready[p][k] != pre.ready[b][0]);
            } else {
                assert(pre.task_of(pre.ready[p][k]).prio as int == p);
                assert(pre.task_of(next).prio as int == b);
            }
        }
    }
    // the outgoing task sits in the pre queue only if its status was ready
    if ct.status != TaskStatus::TaskReady {
        assert forall|p: int, k: int| 0 <= p < pre.ready.len() && 0 <= k
            < pre.ready[p].len() implies (#[trigger] pre.ready[p][k]) != cur by {
            assert(pre.task_of(pre.ready[p][k]).status == TaskStatus::TaskReady);
        }
    }
    // pointwise arena: statuses after dispatch
    assert(forall|k: int|
        0 <= k < post.tasks.len() ==> (#[trigger] post.tasks[k]).id == pre.tasks[k].id);
    assert(forall|k: int|
        0 <= k < post.tasks.len() ==> (#[trigger] post.tasks[k]).prio == pre.tasks[k].prio);
    assert(forall|k: int|
        0 <= k < post.tasks.len() && k != cur_i && k != ni ==> (#[trigger] post.tasks[k]).status
            == pre.tasks[k].status);
    assert(demoted ==> post.tasks[cur_i].status == TaskStatus::TaskReady);
    assert(retired ==> post.tasks[cur_i].status == TaskStatus::TaskInvalid);
    assert(!demoted && !retired ==> post.tasks[cur_i].status == ct.status);
    assert(from_queue && next != cur ==> post.tasks[ni].status == TaskStatus::TaskRunning);
    // the post ready queue, levelwise
    let popped = if from_queue {
        pre.ready.update(b, pre.ready[b].drop_first())
    } else {
        pre.ready
    };
    assert(demoted ==> post.ready == popped.update(
        pct.prio as int,
        popped[pct.prio as int].push(cur),
    ));
    assert(!demoted ==> post.ready == popped);
    assert forall|i: int| 0 <= i < post.tasks.len() && (#[trigger] post.tasks[i]).status
        == TaskStatus::TaskReady implies queue_contains(post.ready, post.tasks[i].id) by {
        let id = post.tasks[i].id;
        if i == cur_i && demoted {
            assert(post.ready[pct.prio as int][post.ready[pct.prio as int].len() - 1] == cur);
        } else {
            assert(pre.tasks[i].status == TaskStatus::TaskReady);
            assert(queue_contains(pre.ready, id));
            let (p0, k0) = choose|p0: int, k0: int|
                0 <= p0 < pre.ready.len() && 0 <= k0 < pre.ready[p0].len() && pre.ready[p0][k0]
                    == id;
            if from_queue && p0 == b && k0 == 0 {
                assert(id == next);
                assert(i == ni);
                assert(post.tasks[ni].status == TaskStatus::TaskRunning
                    || (next == cur && demoted));
                assert(false);
            } else {
                let kp = if from_queue && p0 == b {
                    k0 - 1
                } else {
                    k0
                };
                if demoted && p0 == pct.prio as int {
                    assert(post.ready[p0][kp] == id);
                } else {
                    assert(post.ready[p0][kp] == id);
                }
            }
        }
    }
}

/// An update that keeps every id in place keeps every lookup in place.
pub proof fn lemma_idx_of_post(pre: SchedView, post: SchedView, id: TaskId)
    requires
        ids_unique(pre.tasks),
        ids_unique(post.tasks),
        post.tasks.len() >= pre.tasks.len(),
        forall|k: int|
            0 <= k < pre.tasks.len() ==> (#[trigger] post.tasks[k]).id == pre.tasks[k].id,
        pre.has(id),
    ensures
        post.has(id),
        post.idx_of(id) == pre.idx_of(id),
        post.tasks[pre.idx_of(id)].id == id,
{
    let i = pre.idx_of(id);
    assert(0 <= i < pre.tasks.len() && pre.tasks[i].id == id);
    assert(post.tasks[i].id == id);
    lemma_idx_of(post, i);
}

} // verus!
